use vstd::prelude::*;
use crate::hash::{TernaryHash, hash_eq};
use crate::tsa::TsaMetadata;

verus! {

/// The fields of a transaction that the node's logic reads.
#[derive(Clone, Copy, Debug)]
pub struct Transaction {
    pub address: TernaryHash,
    /// Signed value moved to or from `address`.
    pub value: i64,
    pub bundle: TernaryHash,
    pub trunk: TernaryHash,
    pub branch: TernaryHash,
    /// Position in the bundle; 0 for the tail.
    pub current_index: u64,
    pub last_index: u64,
    pub timestamp: u64,
}

/// Mutable metadata of a transaction held by the tangle.
#[derive(Clone, Copy, Debug)]
pub struct TransactionMetadata {
    pub solid: bool,
    pub tail: bool,
    pub conflicting: bool,
    /// Index of the milestone that confirmed the transaction; set once.
    pub milestone_index: Option<u32>,
    pub arrival_timestamp: u64,
    pub confirmation_timestamp: u64,
}

/// One transaction of the tangle, with its metadata and where its parents are.
#[derive(Clone, Copy, Debug)]
pub struct Entry {
    pub hash: TernaryHash,
    pub tx: Transaction,
    pub meta: TransactionMetadata,
    pub tsa: TsaMetadata,
    /// Slot of the trunk, while the trunk is in the tangle.
    pub trunk_slot: Option<usize>,
    /// Slot of the branch, while the branch is in the tangle.
    pub branch_slot: Option<usize>,
    /// Position in `solid_order`, once solid.
    pub rank: usize,
}

/// The in-memory tangle: transactions with their metadata, the
/// solid-entry-points, the milestones seen, and the milestone indices.
pub struct Tangle {
    pub entries: Vec<Entry>,
    pub seps: Vec<TernaryHash>,
    /// Slots of the solid transactions, in the order they became solid:
    /// each one after its parents.
    pub solid_order: Vec<usize>,
    pub milestones: Vec<(u32, TernaryHash)>,
    pub snapshot_index: u32,
    pub last_solid_index: u32,
    pub last_index: u32,
}

impl Tangle {
    pub open spec fn len(&self) -> int {
        self.entries@.len() as int
    }

    pub open spec fn e(&self, i: int) -> Entry {
        self.entries@[i]
    }

    pub open spec fn is_sep(&self, h: TernaryHash) -> bool {
        self.seps@.contains(h)
    }

    /// Some slot holds a transaction with hash `h`.
    pub open spec fn contains(&self, h: TernaryHash) -> bool {
        exists|j: int| 0 <= j < self.len() && (#[trigger] self.e(j)).hash == h
    }

    pub open spec fn slot_matches(&self, h: TernaryHash, s: Option<usize>) -> bool {
        match s {
            Some(j) => j < self.len() && self.e(j as int).hash == h,
            None => forall|j: int| 0 <= j < self.len() ==> (#[trigger] self.e(j)).hash != h,
        }
    }

    pub open spec fn slot_solid(&self, s: Option<usize>) -> bool {
        match s {
            Some(j) => self.e(j as int).meta.solid,
            None => false,
        }
    }

    /// A parent counts as solid: a solid-entry-point or a solid transaction.
    pub open spec fn parent_ok(&self, h: TernaryHash, s: Option<usize>) -> bool {
        self.is_sep(h) || self.slot_solid(s)
    }

    /// Both parents of slot `i` count as solid.
    pub open spec fn parents_ok(&self, i: int) -> bool {
        self.parent_ok(self.e(i).tx.trunk, self.e(i).trunk_slot) && self.parent_ok(
            self.e(i).tx.branch,
            self.e(i).branch_slot,
        )
    }

    pub open spec fn parent_ranked(&self, h: TernaryHash, s: Option<usize>, r: usize) -> bool {
        self.is_sep(h) || (s matches Some(j) && self.e(j as int).rank < r)
    }

    pub open spec fn slots_ok(&self) -> bool {
        forall|i: int|
            0 <= i < self.len() ==> self.slot_matches((#[trigger] self.e(i)).tx.trunk, self.e(i).trunk_slot)
                && self.slot_matches(self.e(i).tx.branch, self.e(i).branch_slot)
    }

    pub open spec fn unique(&self) -> bool {
        forall|i: int, j: int|
            0 <= i < self.len() && 0 <= j < self.len() && i != j ==> (#[trigger] self.e(i)).hash != (
            #[trigger] self.e(j)).hash
    }

    pub open spec fn solid_sound(&self) -> bool {
        forall|i: int| 0 <= i < self.len() && (#[trigger] self.e(i)).meta.solid ==> self.parents_ok(i)
    }

    /// Solidity is exactly the closure: a transaction is solid iff both of
    /// its parents are solid-entry-points or solid transactions.
    pub open spec fn solid_closed(&self) -> bool {
        forall|i: int| 0 <= i < self.len() ==> ((#[trigger] self.e(i)).meta.solid <==> self.parents_ok(i))
    }

    pub open spec fn order_ok(&self) -> bool {
        &&& forall|k: int|
            0 <= k < self.solid_order@.len() ==> {
                let i = #[trigger] self.solid_order@[k];
                &&& i < self.len()
                &&& self.e(i as int).meta.solid
                &&& self.e(i as int).rank == k
            }
        &&& forall|i: int|
            0 <= i < self.len() && (#[trigger] self.e(i)).meta.solid ==> {
                &&& self.e(i).rank < self.solid_order@.len()
                &&& self.solid_order@[self.e(i).rank as int] == i
                &&& self.parent_ranked(self.e(i).tx.trunk, self.e(i).trunk_slot, self.e(i).rank)
                &&& self.parent_ranked(self.e(i).tx.branch, self.e(i).branch_slot, self.e(i).rank)
            }
    }

    /// OTRSI that a parent hands down: the snapshot index for a
    /// solid-entry-point, else the parent's own.
    pub open spec fn parent_otrsi(&self, h: TernaryHash, s: Option<usize>) -> u32 {
        if self.is_sep(h) {
            self.snapshot_index
        } else {
            match s {
                Some(j) => match self.e(j as int).tsa.otrsi {
                    Some(o) => o,
                    None => 0,
                },
                None => 0,
            }
        }
    }

    /// YTRSI that a parent hands down.
    pub open spec fn parent_ytrsi(&self, h: TernaryHash, s: Option<usize>) -> u32 {
        if self.is_sep(h) {
            self.snapshot_index
        } else {
            match s {
                Some(j) => match self.e(j as int).tsa.ytrsi {
                    Some(y) => y,
                    None => 0,
                },
                None => 0,
            }
        }
    }

    pub open spec fn otrsi_from_parents(&self, i: int) -> u32 {
        min_u32(
            self.parent_otrsi(self.e(i).tx.trunk, self.e(i).trunk_slot),
            self.parent_otrsi(self.e(i).tx.branch, self.e(i).branch_slot),
        )
    }

    pub open spec fn ytrsi_from_parents(&self, i: int) -> u32 {
        max_u32(
            self.parent_ytrsi(self.e(i).tx.trunk, self.e(i).trunk_slot),
            self.parent_ytrsi(self.e(i).tx.branch, self.e(i).branch_slot),
        )
    }

    /// OTRSI and YTRSI of slot `i`: the milestone index once confirmed; else,
    /// once solid, the minimum and the maximum over its parents; else unset.
    pub open spec fn tsa_exact(&self, i: int) -> bool {
        match self.e(i).meta.milestone_index {
            Some(m) => self.e(i).tsa.otrsi == Some(m) && self.e(i).tsa.ytrsi == Some(m),
            None => if self.e(i).meta.solid {
                &&& self.e(i).tsa.otrsi == Some(self.otrsi_from_parents(i))
                &&& self.e(i).tsa.ytrsi == Some(self.ytrsi_from_parents(i))
            } else {
                self.e(i).tsa.otrsi is None && self.e(i).tsa.ytrsi is None
            },
        }
    }

    /// OTRSI never exceeds YTRSI, and both are set together.
    pub open spec fn tsa_ordered(&self, i: int) -> bool {
        &&& (self.e(i).tsa.otrsi is Some <==> self.e(i).tsa.ytrsi is Some)
        &&& (self.e(i).tsa.otrsi matches Some(o) ==> self.e(i).tsa.ytrsi matches Some(y) && o <= y)
    }

    pub open spec fn tsa_ok(&self) -> bool {
        forall|i: int| 0 <= i < self.len() ==> #[trigger] self.tsa_exact(i) && self.tsa_ordered(i)
    }

    pub open spec fn indices_ok(&self) -> bool {
        self.snapshot_index <= self.last_solid_index <= self.last_index
    }

    /// What holds of the tangle between operations.
    pub open spec fn wf(&self) -> bool {
        &&& self.slots_ok()
        &&& self.unique()
        &&& self.solid_closed()
        &&& self.order_ok()
        &&& self.tsa_ok()
        &&& self.indices_ok()
    }
}

pub open spec fn min_u32(a: u32, b: u32) -> u32 {
    if a <= b { a } else { b }
}

pub open spec fn max_u32(a: u32, b: u32) -> u32 {
    if a >= b { a } else { b }
}

impl Tangle {
    /// An empty tangle whose snapshot, last solid and last milestone indices
    /// are all `snapshot_index`.
    pub fn new(snapshot_index: u32) -> (r: Tangle)
        ensures
            r.wf(),
            r.confirmation_closed(),
            r.len() == 0,
            r.seps@.len() == 0,
            r.snapshot_index == snapshot_index,
            r.last_solid_index == snapshot_index,
            r.last_index == snapshot_index,
    {
        Tangle {
            entries: Vec::new(),
            seps: Vec::new(),
            solid_order: Vec::new(),
            milestones: Vec::new(),
            snapshot_index,
            last_solid_index: snapshot_index,
            last_index: snapshot_index,
        }
    }

    /// The slot of the transaction with hash `h`, if present.
    pub fn find(&self, h: &TernaryHash) -> (r: Option<usize>)
        ensures
            self.slot_matches(*h, r),
    {
        let mut i: usize = 0;
        while i < self.entries.len()
            invariant
                i <= self.len(),
                forall|j: int| 0 <= j < i ==> (#[trigger] self.e(j)).hash != *h,
            decreases self.len() - i,
        {
            if hash_eq(&self.entries[i].hash, h) {
                return Some(i);
            }
            i += 1;
        }
        None
    }

    pub fn contains_solid_entry_point(&self, h: &TernaryHash) -> (r: bool)
        ensures
            r == self.is_sep(*h),
    {
        let mut i: usize = 0;
        while i < self.seps.len()
            invariant
                i <= self.seps@.len(),
                forall|j: int| 0 <= j < i ==> self.seps@[j] != *h,
            decreases self.seps@.len() - i,
        {
            if hash_eq(&self.seps[i], h) {
                return true;
            }
            i += 1;
        }
        false
    }
}


/// Number of entries that are not solid.
pub open spec fn nonsolid_count(s: Seq<Entry>) -> nat
    decreases s.len(),
{
    if s.len() == 0 {
        0
    } else {
        nonsolid_count(s.drop_last()) + if s.last().meta.solid {
            0nat
        } else {
            1nat
        }
    }
}

proof fn lemma_nonsolid_count_set(s: Seq<Entry>, i: int, e: Entry)
    requires
        0 <= i < s.len(),
        !s[i].meta.solid,
        e.meta.solid,
    ensures
        nonsolid_count(s.update(i, e)) + 1 == nonsolid_count(s),
    decreases s.len(),
{
    let t = s.update(i, e);
    if i == s.len() - 1 {
        assert(t.drop_last() =~= s.drop_last());
    } else {
        lemma_nonsolid_count_set(s.drop_last(), i, e);
        assert(t.drop_last() =~= s.drop_last().update(i, e));
    }
}

/// `b` is `a` with at most its solid flag raised and its rank set.
pub open spec fn same_but_solid(a: Entry, b: Entry) -> bool {
    &&& b.hash == a.hash
    &&& b.tx == a.tx
    &&& b.tsa == a.tsa
    &&& b.trunk_slot == a.trunk_slot
    &&& b.branch_slot == a.branch_slot
    &&& b.meta.tail == a.meta.tail
    &&& b.meta.conflicting == a.meta.conflicting
    &&& b.meta.milestone_index == a.meta.milestone_index
    &&& b.meta.arrival_timestamp == a.meta.arrival_timestamp
    &&& b.meta.confirmation_timestamp == a.meta.confirmation_timestamp
    &&& (a.meta.solid ==> b.meta.solid && b.rank == a.rank)
}

/// `b` is `a` with at most its OTRSI and YTRSI changed.
pub open spec fn same_but_tsa(a: Entry, b: Entry) -> bool {
    &&& b.hash == a.hash
    &&& b.tx == a.tx
    &&& b.meta == a.meta
    &&& b.tsa.selected == a.tsa.selected
    &&& b.trunk_slot == a.trunk_slot
    &&& b.branch_slot == a.branch_slot
    &&& b.rank == a.rank
}

impl Tangle {
    /// Metadata facts that do not depend on the order of solidification:
    /// OTRSI and YTRSI are ordered, equal the milestone index once confirmed,
    /// and are unset on what is neither solid nor confirmed.
    pub open spec fn tsa_pre(&self) -> bool {
        forall|i: int|
            0 <= i < self.len() ==> #[trigger] self.tsa_ordered(i) && match self.e(i).meta.milestone_index {
                Some(m) => self.e(i).tsa.otrsi == Some(m) && self.e(i).tsa.ytrsi == Some(m),
                None => !self.e(i).meta.solid ==> self.e(i).tsa.otrsi is None && self.e(i).tsa.ytrsi is None,
            }
    }

    fn parent_ok_exec(&self, h: &TernaryHash, s: Option<usize>) -> (r: bool)
        requires
            s matches Some(j) ==> j < self.len(),
        ensures
            r == self.parent_ok(*h, s),
    {
        if self.contains_solid_entry_point(h) {
            return true;
        }
        match s {
            Some(j) => self.entries[j].meta.solid,
            None => false,
        }
    }

    /// Raises the solid flag of every transaction whose parents count as
    /// solid, until no more can be raised.
    fn solidify(&mut self)
        requires
            old(self).slots_ok(),
            old(self).unique(),
            old(self).solid_sound(),
            old(self).order_ok(),
        ensures
            final(self).slots_ok(),
            final(self).unique(),
            final(self).solid_closed(),
            final(self).order_ok(),
            final(self).len() == old(self).len(),
            forall|i: int| 0 <= i < old(self).len() ==> same_but_solid(#[trigger] old(self).e(i), final(self).e(i)),
            final(self).seps == old(self).seps,
            final(self).milestones == old(self).milestones,
            final(self).snapshot_index == old(self).snapshot_index,
            final(self).last_solid_index == old(self).last_solid_index,
            final(self).last_index == old(self).last_index,
    {
        let ghost start = self.entries@;
        let mut changed = true;
        while changed
            invariant
                self.slots_ok(),
                self.unique(),
                self.solid_sound(),
                self.order_ok(),
                self.len() == start.len(),
                forall|i: int| 0 <= i < start.len() ==> same_but_solid(#[trigger] start[i], self.e(i)),
                !changed ==> self.solid_closed(),
                self.seps == old(self).seps,
                self.milestones == old(self).milestones,
                self.snapshot_index == old(self).snapshot_index,
                self.last_solid_index == old(self).last_solid_index,
                self.last_index == old(self).last_index,
            decreases nonsolid_count(self.entries@) + if changed { 1nat } else { 0nat },
        {
            changed = false;
            let ghost pass_start = self.entries@;
            let mut i: usize = 0;
            while i < self.entries.len()
                invariant
                    self.slots_ok(),
                    self.unique(),
                    self.solid_sound(),
                    self.order_ok(),
                    self.len() == start.len(),
                    pass_start.len() == start.len(),
                    i <= self.len(),
                    forall|j: int| 0 <= j < start.len() ==> same_but_solid(#[trigger] start[j], self.e(j)),
                    !changed ==> self.entries@ == pass_start,
                    changed ==> nonsolid_count(self.entries@) < nonsolid_count(pass_start),
                    !changed ==> forall|j: int| 0 <= j < i ==> (#[trigger] self.e(j)).meta.solid || !self.parents_ok(j),
                    self.seps == old(self).seps,
                    self.milestones == old(self).milestones,
                    self.snapshot_index == old(self).snapshot_index,
                    self.last_solid_index == old(self).last_solid_index,
                    self.last_index == old(self).last_index,
                decreases self.len() - i,
            {
                let e = self.entries[i];
                proof {
                    assert(self.slot_matches(self.e(i as int).tx.trunk, self.e(i as int).trunk_slot));
                }
                if !e.meta.solid && self.parent_ok_exec(&e.tx.trunk, e.trunk_slot) && self.parent_ok_exec(
                    &e.tx.branch,
                    e.branch_slot,
                ) {
                    let ghost before = *self;
                    let mut ne = e;
                    ne.meta.solid = true;
                    ne.rank = self.solid_order.len();
                    self.entries.set(i, ne);
                    self.solid_order.push(i);
                    proof {
                        lemma_nonsolid_count_set(before.entries@, i as int, ne);
                        assert forall|m: int| 0 <= m < self.len() implies {
                            &&& (#[trigger] self.e(m)).hash == before.e(m).hash
                            &&& self.e(m).tx == before.e(m).tx
                            &&& self.e(m).trunk_slot == before.e(m).trunk_slot
                            &&& self.e(m).branch_slot == before.e(m).branch_slot
                        } by {}
                        assert forall|j: int| 0 <= j < self.len() && #[trigger] before.e(j).meta.solid
                            implies self.e(j) == before.e(j) by {}
                        assert forall|h: TernaryHash, s: Option<usize>|
                            (s matches Some(x) ==> x < self.len()) && before.parent_ok(h, s)
                            implies #[trigger] self.parent_ok(h, s) by {}
                        assert(self.slots_ok()) by {
                            assert forall|j: int| 0 <= j < self.len() implies
                                self.slot_matches((#[trigger] self.e(j)).tx.trunk, self.e(j).trunk_slot)
                                && self.slot_matches(self.e(j).tx.branch, self.e(j).branch_slot) by {
                                assert(before.slot_matches(before.e(j).tx.trunk, before.e(j).trunk_slot));
                                assert(before.slot_matches(before.e(j).tx.branch, before.e(j).branch_slot));
                            }
                        }
                        assert(self.unique());
                        assert(self.solid_sound()) by {
                            assert forall|j: int| 0 <= j < self.len() && (#[trigger] self.e(j)).meta.solid
                                implies self.parents_ok(j) by {
                                assert(before.slot_matches(before.e(j).tx.trunk, before.e(j).trunk_slot));
                                assert(before.slot_matches(before.e(j).tx.branch, before.e(j).branch_slot));
                                if j != i {
                                    assert(before.parents_ok(j));
                                }
                            }
                        }
                        assert(self.order_ok()) by {
                            assert forall|j: int| 0 <= j < self.len() && (#[trigger] self.e(j)).meta.solid
                                implies {
                                    &&& self.e(j).rank < self.solid_order@.len()
                                    &&& self.solid_order@[self.e(j).rank as int] == j
                                    &&& self.parent_ranked(self.e(j).tx.trunk, self.e(j).trunk_slot, self.e(j).rank)
                                    &&& self.parent_ranked(self.e(j).tx.branch, self.e(j).branch_slot, self.e(j).rank)
                                } by {
                                assert(before.slot_matches(before.e(j).tx.trunk, before.e(j).trunk_slot));
                                assert(before.slot_matches(before.e(j).tx.branch, before.e(j).branch_slot));
                            }
                        }
                    }
                    changed = true;
                }
                i += 1;
            }
        }
    }
}

impl Tangle {
    /// The OTRSI and YTRSI that a parent hands down.
    pub fn parent_values_of(&self, h: &TernaryHash, s: Option<usize>) -> (r: (u32, u32))
        requires
            s matches Some(j) ==> j < self.len(),
        ensures
            r.0 == self.parent_otrsi(*h, s),
            r.1 == self.parent_ytrsi(*h, s),
    {
        if self.contains_solid_entry_point(h) {
            return (self.snapshot_index, self.snapshot_index);
        }
        match s {
            Some(j) => {
                let t = self.entries[j].tsa;
                let o = match t.otrsi {
                    Some(o) => o,
                    None => 0,
                };
                let y = match t.ytrsi {
                    Some(y) => y,
                    None => 0,
                };
                (o, y)
            },
            None => (0, 0),
        }
    }

    /// Recomputes OTRSI and YTRSI of every solid transaction, parents first.
    #[verifier::rlimit(40)]
    fn recompute_tsa(&mut self)
        requires
            old(self).slots_ok(),
            old(self).unique(),
            old(self).solid_closed(),
            old(self).order_ok(),
            old(self).indices_ok(),
            old(self).tsa_pre(),
        ensures
            final(self).wf(),
            final(self).len() == old(self).len(),
            forall|i: int| 0 <= i < old(self).len() ==> same_but_tsa(#[trigger] old(self).e(i), final(self).e(i)),
            final(self).seps == old(self).seps,
            final(self).solid_order == old(self).solid_order,
            final(self).milestones == old(self).milestones,
            final(self).snapshot_index == old(self).snapshot_index,
            final(self).last_solid_index == old(self).last_solid_index,
            final(self).last_index == old(self).last_index,
    {
        let ghost start = self.entries@;
        let mut k: usize = 0;
        while k < self.solid_order.len()
            invariant
                self.slots_ok(),
                self.unique(),
                self.solid_closed(),
                self.order_ok(),
                self.indices_ok(),
                self.tsa_pre(),
                self.len() == start.len(),
                forall|i: int| 0 <= i < start.len() ==> same_but_tsa(#[trigger] start[i], self.e(i)),
                k <= self.solid_order@.len(),
                forall|i: int|
                    0 <= i < self.len() && (#[trigger] self.e(i)).meta.solid && self.e(i).rank < k
                        ==> self.tsa_exact(i),
                self.seps == old(self).seps,
                self.solid_order == old(self).solid_order,
                self.milestones == old(self).milestones,
                self.snapshot_index == old(self).snapshot_index,
                self.last_solid_index == old(self).last_solid_index,
                self.last_index == old(self).last_index,
            decreases self.solid_order@.len() - k,
        {
            let i = self.solid_order[k];
            let e = self.entries[i];
            proof {
                assert(self.slot_matches(self.e(i as int).tx.trunk, self.e(i as int).trunk_slot));
                assert(self.slot_matches(self.e(i as int).tx.branch, self.e(i as int).branch_slot));
                assert(self.e(i as int).meta.solid);
            }
            let (ot, yt) = self.parent_values_of(&e.tx.trunk, e.trunk_slot);
            let (ob, yb) = self.parent_values_of(&e.tx.branch, e.branch_slot);
            let ghost before = *self;
            let mut ne = e;
            match e.meta.milestone_index {
                Some(m) => {
                    ne.tsa.otrsi = Some(m);
                    ne.tsa.ytrsi = Some(m);
                },
                None => {
                    ne.tsa.otrsi = Some(if ot <= ob { ot } else { ob });
                    ne.tsa.ytrsi = Some(if yt >= yb { yt } else { yb });
                },
            }
            self.entries.set(i, ne);
            proof {
                assert forall|m: int| 0 <= m < self.len() && m != i implies #[trigger] self.e(m) == before.e(m) by {}
                assert(self.e(i as int) == ne);
                lemma_recompute_step(start, before, *self, i as int, k as int);
            }
            k += 1;
        }
        proof {
            assert forall|i: int| 0 <= i < self.len() implies #[trigger] self.tsa_exact(i) && self.tsa_ordered(i) by {
                assert(self.tsa_ordered(i));
                if self.e(i).meta.solid {
                    assert(self.e(i).rank < self.solid_order@.len());
                    assert(self.e(i).rank < k);
                } else {
                    assert(self.tsa_exact(i));
                }
            }
        }
    }
}

/// `b` differs from `a` at most in the OTRSI and YTRSI of its entries.
pub open spec fn tsa_change(a: Tangle, b: Tangle) -> bool {
    &&& b.len() == a.len()
    &&& forall|m: int| 0 <= m < a.len() ==> same_but_tsa(#[trigger] a.e(m), b.e(m))
    &&& b.seps == a.seps
    &&& b.solid_order == a.solid_order
    &&& b.snapshot_index == a.snapshot_index
    &&& b.last_solid_index == a.last_solid_index
    &&& b.last_index == a.last_index
}


#[verifier::rlimit(40)]
proof fn lemma_recompute_step(start: Seq<Entry>, a: Tangle, b: Tangle, i: int, k: int)
    requires
        a.slots_ok(),
        a.unique(),
        a.solid_closed(),
        a.order_ok(),
        a.indices_ok(),
        a.tsa_pre(),
        a.len() == start.len(),
        forall|m: int| 0 <= m < start.len() ==> same_but_tsa(#[trigger] start[m], a.e(m)),
        0 <= k < a.solid_order@.len(),
        i == a.solid_order@[k],
        forall|m: int| 0 <= m < a.len() && (#[trigger] a.e(m)).meta.solid && a.e(m).rank < k ==> a.tsa_exact(m),
        b.len() == a.len(),
        forall|m: int| 0 <= m < b.len() && m != i ==> #[trigger] b.e(m) == a.e(m),
        same_but_tsa(a.e(i), b.e(i)),
        match a.e(i).meta.milestone_index {
            Some(m) => b.e(i).tsa.otrsi == Some(m) && b.e(i).tsa.ytrsi == Some(m),
            None => {
                &&& b.e(i).tsa.otrsi == Some(a.otrsi_from_parents(i))
                &&& b.e(i).tsa.ytrsi == Some(a.ytrsi_from_parents(i))
            },
        },
        b.seps == a.seps,
        b.solid_order == a.solid_order,
        b.snapshot_index == a.snapshot_index,
        b.last_solid_index == a.last_solid_index,
        b.last_index == a.last_index,
    ensures
        b.slots_ok(),
        b.unique(),
        b.solid_closed(),
        b.order_ok(),
        b.indices_ok(),
        b.tsa_pre(),
        forall|m: int| 0 <= m < start.len() ==> same_but_tsa(#[trigger] start[m], b.e(m)),
        forall|m: int| 0 <= m < b.len() && (#[trigger] b.e(m)).meta.solid && b.e(m).rank < k + 1 ==> b.tsa_exact(m),
{
    let e = a.e(i);
    assert(e.meta.solid && e.rank == k);
    assert(a.slot_matches(e.tx.trunk, e.trunk_slot));
    assert(a.slot_matches(e.tx.branch, e.branch_slot));
    assert(a.tsa_ordered(i));
    if let Some(j) = e.trunk_slot {
        assert(a.tsa_ordered(j as int));
    }
    if let Some(j) = e.branch_slot {
        assert(a.tsa_ordered(j as int));
    }
    assert forall|m: int| 0 <= m < a.len() implies same_structure(#[trigger] a.e(m), b.e(m)) by {
        assert(same_but_tsa(a.e(m), b.e(m)));
    }
    lemma_structure_kept(a, b);
    assert forall|m: int| 0 <= m < start.len() implies same_but_tsa(#[trigger] start[m], b.e(m)) by {
        assert(same_but_tsa(start[m], a.e(m)));
    }
    assert(b.tsa_pre()) by {
        assert forall|j: int| 0 <= j < b.len() implies #[trigger] b.tsa_ordered(j) && match b.e(j).meta.milestone_index {
            Some(m) => b.e(j).tsa.otrsi == Some(m) && b.e(j).tsa.ytrsi == Some(m),
            None => !b.e(j).meta.solid ==> b.e(j).tsa.otrsi is None && b.e(j).tsa.ytrsi is None,
        } by {
            assert(a.tsa_ordered(j));
        }
    }
    assert(tsa_change(a, b));
    lemma_settle_step(a, b, i, k);
}

proof fn lemma_settle_step(a: Tangle, b: Tangle, i: int, k: int)
    requires
        tsa_change(a, b),
        a.slots_ok(),
        a.order_ok(),
        0 <= i < a.len(),
        a.e(i).meta.solid,
        a.e(i).rank == k,
        forall|m: int| 0 <= m < b.len() && m != i ==> #[trigger] b.e(m) == a.e(m),
        match b.e(i).meta.milestone_index {
            Some(m) => b.e(i).tsa.otrsi == Some(m) && b.e(i).tsa.ytrsi == Some(m),
            None => {
                &&& b.e(i).tsa.otrsi == Some(a.otrsi_from_parents(i))
                &&& b.e(i).tsa.ytrsi == Some(a.ytrsi_from_parents(i))
            },
        },
        forall|j: int|
            0 <= j < a.len() && (#[trigger] a.e(j)).meta.solid && a.e(j).rank < k ==> a.tsa_exact(j),
    ensures
        forall|j: int|
            0 <= j < b.len() && (#[trigger] b.e(j)).meta.solid && b.e(j).rank < k + 1 ==> b.tsa_exact(j),
{
    assert forall|j: int|
        0 <= j < b.len() && (#[trigger] b.e(j)).meta.solid && b.e(j).rank < k + 1 implies b.tsa_exact(j) by {
        assert(same_but_tsa(a.e(j), b.e(j)));
        assert(a.e(j).meta.solid);
        assert(a.slot_matches(a.e(j).tx.trunk, a.e(j).trunk_slot));
        assert(a.slot_matches(a.e(j).tx.branch, a.e(j).branch_slot));
        assert(a.parent_ranked(a.e(j).tx.trunk, a.e(j).trunk_slot, a.e(j).rank));
        assert(a.parent_ranked(a.e(j).tx.branch, a.e(j).branch_slot, a.e(j).rank));
        if let Some(x) = a.e(j).trunk_slot {
            if !a.is_sep(a.e(j).tx.trunk) {
                assert(a.e(x as int).rank < a.e(j).rank);
                assert(x != i || a.e(j).rank < k || j == i);
            }
        }
        if let Some(x) = a.e(j).branch_slot {
            if !a.is_sep(a.e(j).tx.branch) {
                assert(a.e(x as int).rank < a.e(j).rank);
            }
        }
        if j != i {
            assert(a.e(j).rank != k) by {
                assert(a.solid_order@[a.e(j).rank as int] == j);
                assert(a.solid_order@[a.e(i).rank as int] == i);
            }
            assert(a.tsa_exact(j));
        }
        assert(b.parent_otrsi(b.e(j).tx.trunk, b.e(j).trunk_slot)
            == a.parent_otrsi(a.e(j).tx.trunk, a.e(j).trunk_slot));
        assert(b.parent_otrsi(b.e(j).tx.branch, b.e(j).branch_slot)
            == a.parent_otrsi(a.e(j).tx.branch, a.e(j).branch_slot));
        assert(b.parent_ytrsi(b.e(j).tx.trunk, b.e(j).trunk_slot)
            == a.parent_ytrsi(a.e(j).tx.trunk, a.e(j).trunk_slot));
        assert(b.parent_ytrsi(b.e(j).tx.branch, b.e(j).branch_slot)
            == a.parent_ytrsi(a.e(j).tx.branch, a.e(j).branch_slot));
    }
}

/// `b` is `a` with at most its parent slots changed.
pub open spec fn same_but_slots(a: Entry, b: Entry) -> bool {
    &&& b.hash == a.hash
    &&& b.tx == a.tx
    &&& b.meta == a.meta
    &&& b.tsa == a.tsa
    &&& b.rank == a.rank
}

impl Tangle {
    /// Like `slot_matches`, over the first `n` slots only.
    pub open spec fn slot_matches_upto(&self, h: TernaryHash, s: Option<usize>, n: int) -> bool {
        match s {
            Some(j) => j < n && self.e(j as int).hash == h,
            None => forall|j: int| 0 <= j < n ==> (#[trigger] self.e(j)).hash != h,
        }
    }

    /// Points the parent slots that name the transaction in the last slot at it.
    fn link_children(&mut self, n: usize)
        requires
            old(self).len() == n + 1,
            n < usize::MAX,
            forall|j: int|
                0 <= j <= n ==> old(self).slot_matches_upto((#[trigger] old(self).e(j)).tx.trunk, old(self).e(j).trunk_slot, n as int)
                    && old(self).slot_matches_upto(old(self).e(j).tx.branch, old(self).e(j).branch_slot, n as int),
            forall|j: int| 0 <= j < n ==> (#[trigger] old(self).e(j)).hash != old(self).e(n as int).hash,
            forall|i: int, j: int|
                0 <= i < n && 0 <= j < n && i != j ==> (#[trigger] old(self).e(i)).hash != (#[trigger] old(self).e(j)).hash,
            old(self).solid_sound(),
            old(self).order_ok(),
            old(self).tsa_pre(),
            !old(self).e(n as int).meta.solid,
            old(self).e(n as int).tsa.otrsi is None,
            old(self).e(n as int).tsa.ytrsi is None,
        ensures
            final(self).slots_ok(),
            final(self).unique(),
            final(self).solid_sound(),
            final(self).order_ok(),
            final(self).tsa_pre(),
            final(self).len() == old(self).len(),
            forall|j: int| 0 <= j < old(self).len() ==> same_but_slots(#[trigger] old(self).e(j), final(self).e(j)),
            final(self).seps == old(self).seps,
            final(self).solid_order == old(self).solid_order,
            final(self).milestones == old(self).milestones,
            final(self).snapshot_index == old(self).snapshot_index,
            final(self).last_solid_index == old(self).last_solid_index,
            final(self).last_index == old(self).last_index,
    {
        let hash = self.entries[n].hash;
        let ghost start = *self;
        let mut i: usize = 0;
        while i <= n
            invariant
                self.len() == n + 1,
                n < usize::MAX,
                0 <= i <= n + 1,
                hash == start.e(n as int).hash,
                start == *old(self),
                forall|j: int|
                    0 <= j <= n ==> start.slot_matches_upto((#[trigger] start.e(j)).tx.trunk, start.e(j).trunk_slot, n as int)
                        && start.slot_matches_upto(start.e(j).tx.branch, start.e(j).branch_slot, n as int),
                forall|j: int| 0 <= j <= n ==> same_but_slots(#[trigger] start.e(j), self.e(j)),
                forall|j: int| i <= j <= n ==> #[trigger] self.e(j) == start.e(j),
                forall|j: int|
                    0 <= j < i ==> self.slot_matches((#[trigger] self.e(j)).tx.trunk, self.e(j).trunk_slot)
                        && self.slot_matches(self.e(j).tx.branch, self.e(j).branch_slot),
                forall|j: int|
                    0 <= j <= n ==> (self.e(j).trunk_slot != start.e(j).trunk_slot ==> #[trigger] self.e(j).trunk_slot == Some(n))
                        && (self.e(j).branch_slot != start.e(j).branch_slot ==> self.e(j).branch_slot == Some(n)),
                self.seps == start.seps,
                self.solid_order == start.solid_order,
                self.milestones == start.milestones,
                self.snapshot_index == start.snapshot_index,
                self.last_solid_index == start.last_solid_index,
                self.last_index == start.last_index,
            decreases n + 1 - i,
        {
            let mut e = self.entries[i];
            if hash_eq(&e.tx.trunk, &hash) {
                e.trunk_slot = Some(n);
            }
            if hash_eq(&e.tx.branch, &hash) {
                e.branch_slot = Some(n);
            }
            let ghost before = *self;
            self.entries.set(i, e);
            proof {
                assert(start.slot_matches_upto(start.e(i as int).tx.trunk, start.e(i as int).trunk_slot, n as int));
                assert(start.slot_matches_upto(start.e(i as int).tx.branch, start.e(i as int).branch_slot, n as int));
                lemma_link_step(start, before, *self, i as int, n);
            }
            i += 1;
        }
        proof {
            lemma_link_done(start, *self, n);
        }
    }
}

proof fn lemma_link_step(start: Tangle, before: Tangle, after: Tangle, i: int, n: usize)
    requires
        before.len() == n + 1,
        after.len() == n + 1,
        0 <= i <= n,
        forall|m: int| 0 <= m <= n && m != i ==> #[trigger] after.e(m) == before.e(m),
        forall|j: int| 0 <= j <= n ==> same_but_slots(#[trigger] start.e(j), before.e(j)),
        before.e(i) == start.e(i),
        same_but_slots(before.e(i), after.e(i)),
        after.e(i).trunk_slot == if after.e(i).tx.trunk == start.e(n as int).hash { Some(n) } else { before.e(i).trunk_slot },
        after.e(i).branch_slot == if after.e(i).tx.branch == start.e(n as int).hash { Some(n) } else { before.e(i).branch_slot },
        start.slot_matches_upto(start.e(i).tx.trunk, start.e(i).trunk_slot, n as int),
        start.slot_matches_upto(start.e(i).tx.branch, start.e(i).branch_slot, n as int),
        forall|j: int|
            0 <= j < i ==> before.slot_matches((#[trigger] before.e(j)).tx.trunk, before.e(j).trunk_slot)
                && before.slot_matches(before.e(j).tx.branch, before.e(j).branch_slot),
    ensures
        forall|j: int|
            0 <= j <= i ==> after.slot_matches((#[trigger] after.e(j)).tx.trunk, after.e(j).trunk_slot)
                && after.slot_matches(after.e(j).tx.branch, after.e(j).branch_slot),
{
    assert forall|m: int| 0 <= m <= n implies (#[trigger] after.e(m)).hash == start.e(m).hash by {
        assert(same_but_slots(start.e(m), before.e(m)));
    }
    assert forall|j: int|
        0 <= j <= i implies after.slot_matches((#[trigger] after.e(j)).tx.trunk, after.e(j).trunk_slot)
            && after.slot_matches(after.e(j).tx.branch, after.e(j).branch_slot) by {
        if j < i {
            assert(before.slot_matches(before.e(j).tx.trunk, before.e(j).trunk_slot));
            assert(before.slot_matches(before.e(j).tx.branch, before.e(j).branch_slot));
        } else {
            let t = after.e(i).tx.trunk;
            if after.e(i).trunk_slot is None {
                assert forall|m: int| 0 <= m < after.len() implies (#[trigger] after.e(m)).hash != t by {
                    if m < n {
                        assert(start.e(m).hash != t);
                    }
                }
            }
            let b = after.e(i).tx.branch;
            if after.e(i).branch_slot is None {
                assert forall|m: int| 0 <= m < after.len() implies (#[trigger] after.e(m)).hash != b by {
                    if m < n {
                        assert(start.e(m).hash != b);
                    }
                }
            }
        }
    }
}

proof fn lemma_link_done(start: Tangle, end: Tangle, n: usize)
    requires
        start.len() == n + 1,
        end.len() == n + 1,
        forall|j: int|
            0 <= j <= n ==> start.slot_matches_upto((#[trigger] start.e(j)).tx.trunk, start.e(j).trunk_slot, n as int)
                && start.slot_matches_upto(start.e(j).tx.branch, start.e(j).branch_slot, n as int),
        forall|j: int| 0 <= j < n ==> (#[trigger] start.e(j)).hash != start.e(n as int).hash,
        forall|i: int, j: int|
            0 <= i < n && 0 <= j < n && i != j ==> (#[trigger] start.e(i)).hash != (#[trigger] start.e(j)).hash,
        start.solid_sound(),
        start.order_ok(),
        start.tsa_pre(),
        !start.e(n as int).meta.solid,
        start.e(n as int).tsa.otrsi is None,
        start.e(n as int).tsa.ytrsi is None,
        forall|j: int| 0 <= j <= n ==> same_but_slots(#[trigger] start.e(j), end.e(j)),
        forall|j: int|
            0 <= j <= n ==> end.slot_matches((#[trigger] end.e(j)).tx.trunk, end.e(j).trunk_slot)
                && end.slot_matches(end.e(j).tx.branch, end.e(j).branch_slot),
        forall|j: int|
            0 <= j <= n ==> (end.e(j).trunk_slot != start.e(j).trunk_slot ==> #[trigger] end.e(j).trunk_slot == Some(n))
                && (end.e(j).branch_slot != start.e(j).branch_slot ==> end.e(j).branch_slot == Some(n)),
        end.seps == start.seps,
        end.solid_order == start.solid_order,
        end.snapshot_index == start.snapshot_index,
    ensures
        end.slots_ok(),
        end.unique(),
        end.solid_sound(),
        end.order_ok(),
        end.tsa_pre(),
{
    assert forall|m: int| 0 <= m <= n implies {
        &&& (#[trigger] end.e(m)).hash == start.e(m).hash
        &&& end.e(m).meta == start.e(m).meta
        &&& end.e(m).tsa == start.e(m).tsa
        &&& end.e(m).rank == start.e(m).rank
    } by {
        assert(same_but_slots(start.e(m), end.e(m)));
    }
    assert(end.unique());
    assert(end.solid_sound()) by {
        assert forall|j: int| 0 <= j < end.len() && (#[trigger] end.e(j)).meta.solid implies end.parents_ok(j) by {
            assert(start.e(j).meta.solid);
            assert(start.parents_ok(j));
            assert(start.slot_matches_upto(start.e(j).tx.trunk, start.e(j).trunk_slot, n as int));
            assert(start.slot_matches_upto(start.e(j).tx.branch, start.e(j).branch_slot, n as int));
        }
    }
    assert(end.order_ok()) by {
        assert forall|j: int| 0 <= j < end.len() && (#[trigger] end.e(j)).meta.solid
            implies {
                &&& end.e(j).rank < end.solid_order@.len()
                &&& end.solid_order@[end.e(j).rank as int] == j
                &&& end.parent_ranked(end.e(j).tx.trunk, end.e(j).trunk_slot, end.e(j).rank)
                &&& end.parent_ranked(end.e(j).tx.branch, end.e(j).branch_slot, end.e(j).rank)
            } by {
            assert(start.e(j).meta.solid);
            assert(start.slot_matches_upto(start.e(j).tx.trunk, start.e(j).trunk_slot, n as int));
            assert(start.slot_matches_upto(start.e(j).tx.branch, start.e(j).branch_slot, n as int));
            assert(start.parents_ok(j));
        }
        assert forall|q: int| 0 <= q < end.solid_order@.len() implies {
            let x = #[trigger] end.solid_order@[q];
            &&& x < end.len()
            &&& end.e(x as int).meta.solid
            &&& end.e(x as int).rank == q
        } by {
            let x = start.solid_order@[q];
            assert(start.e(x as int).meta.solid);
        }
    }
    assert(end.tsa_pre()) by {
        assert forall|j: int| 0 <= j < end.len() implies #[trigger] end.tsa_ordered(j) && match end.e(j).meta.milestone_index {
            Some(m) => end.e(j).tsa.otrsi == Some(m) && end.e(j).tsa.ytrsi == Some(m),
            None => !end.e(j).meta.solid ==> end.e(j).tsa.otrsi is None && end.e(j).tsa.ytrsi is None,
        } by {
            assert(same_but_slots(start.e(j), end.e(j)));
            assert(start.tsa_ordered(j));
        }
    }
}


proof fn lemma_solidify_keeps_tsa_pre(a: Tangle, b: Tangle)
    requires
        a.tsa_pre(),
        b.len() == a.len(),
        forall|i: int| 0 <= i < a.len() ==> same_but_solid(#[trigger] a.e(i), b.e(i)),
    ensures
        b.tsa_pre(),
{
    assert forall|j: int| 0 <= j < b.len() implies #[trigger] b.tsa_ordered(j) && match b.e(j).meta.milestone_index {
        Some(m) => b.e(j).tsa.otrsi == Some(m) && b.e(j).tsa.ytrsi == Some(m),
        None => !b.e(j).meta.solid ==> b.e(j).tsa.otrsi is None && b.e(j).tsa.ytrsi is None,
    } by {
        assert(same_but_solid(a.e(j), b.e(j)));
        assert(a.tsa_ordered(j));
    }
}

/// `b` is `a` after solidification and metadata propagation: the same
/// transaction, confirmation data and selection count; solid once solid.
pub open spec fn same_identity(a: Entry, b: Entry) -> bool {
    &&& b.hash == a.hash
    &&& b.tx == a.tx
    &&& b.meta.tail == a.meta.tail
    &&& b.meta.conflicting == a.meta.conflicting
    &&& b.meta.milestone_index == a.meta.milestone_index
    &&& b.meta.arrival_timestamp == a.meta.arrival_timestamp
    &&& b.meta.confirmation_timestamp == a.meta.confirmation_timestamp
    &&& b.tsa.selected == a.tsa.selected
    &&& (a.meta.solid ==> b.meta.solid)
}

impl Tangle {
    /// Solidifies what can be, then recomputes OTRSI and YTRSI.
    fn settle(&mut self)
        requires
            old(self).slots_ok(),
            old(self).unique(),
            old(self).solid_sound(),
            old(self).order_ok(),
            old(self).indices_ok(),
            old(self).tsa_pre(),
        ensures
            final(self).wf(),
            final(self).len() == old(self).len(),
            forall|i: int| 0 <= i < old(self).len() ==> same_identity(#[trigger] old(self).e(i), final(self).e(i)),
            final(self).seps == old(self).seps,
            final(self).milestones == old(self).milestones,
            final(self).snapshot_index == old(self).snapshot_index,
            final(self).last_solid_index == old(self).last_solid_index,
            final(self).last_index == old(self).last_index,
    {
        let ghost a = *self;
        self.solidify();
        let ghost b = *self;
        proof {
            lemma_solidify_keeps_tsa_pre(a, b);
        }
        self.recompute_tsa();
        proof {
            assert forall|i: int| 0 <= i < a.len() implies same_identity(#[trigger] a.e(i), self.e(i)) by {
                assert(same_but_solid(a.e(i), b.e(i)));
                assert(same_but_tsa(b.e(i), self.e(i)));
            }
        }
    }

    /// Inserts a transaction under its hash. Returns false, and changes
    /// nothing, where the hash is already present. Otherwise the transaction
    /// takes the next slot, is a tail iff its index in the bundle is 0, and
    /// solidity and OTRSI/YTRSI are brought up to date over the whole tangle.
    pub fn insert(&mut self, tx: Transaction, hash: TernaryHash, arrival_timestamp: u64) -> (r: bool)
        requires
            old(self).wf(),
            old(self).len() + 1 < usize::MAX,
        ensures
            final(self).wf(),
            old(self).confirmation_closed() ==> final(self).confirmation_closed(),
            r == !old(self).contains(hash),
            !r ==> *final(self) == *old(self),
            r ==> final(self).len() == old(self).len() + 1,
            r ==> {
                let e = final(self).e(old(self).len());
                &&& e.hash == hash
                &&& e.tx == tx
                &&& e.meta.tail == (tx.current_index == 0)
                &&& !e.meta.conflicting
                &&& e.meta.milestone_index is None
                &&& e.meta.arrival_timestamp == arrival_timestamp
                &&& e.tsa.selected == 0
            },
            forall|i: int| 0 <= i < old(self).len() ==> same_identity(#[trigger] old(self).e(i), final(self).e(i)),
            final(self).seps == old(self).seps,
            final(self).milestones == old(self).milestones,
            final(self).snapshot_index == old(self).snapshot_index,
            final(self).last_solid_index == old(self).last_solid_index,
            final(self).last_index == old(self).last_index,
    {
        if let Some(i) = self.find(&hash) {
            assert(self.e(i as int).hash == hash);
            return false;
        }
        let trunk_slot = self.find(&tx.trunk);
        let branch_slot = self.find(&tx.branch);
        let n = self.entries.len();
        let entry = Entry {
            hash,
            tx,
            meta: TransactionMetadata {
                solid: false,
                tail: tx.current_index == 0,
                conflicting: false,
                milestone_index: None,
                arrival_timestamp,
                confirmation_timestamp: 0,
            },
            tsa: TsaMetadata::new(),
            trunk_slot,
            branch_slot,
            rank: 0,
        };
        let ghost a = *self;
        self.entries.push(entry);
        proof {
            assert forall|j: int| 0 <= j < n implies #[trigger] self.e(j) == a.e(j) by {}
            assert forall|j: int| 0 <= j <= n implies
                self.slot_matches_upto((#[trigger] self.e(j)).tx.trunk, self.e(j).trunk_slot, n as int)
                && self.slot_matches_upto(self.e(j).tx.branch, self.e(j).branch_slot, n as int) by {
                if j < n {
                    assert(a.slot_matches(a.e(j).tx.trunk, a.e(j).trunk_slot));
                    assert(a.slot_matches(a.e(j).tx.branch, a.e(j).branch_slot));
                }
            }
            assert forall|h: TernaryHash, s: Option<usize>|
                (s matches Some(x) ==> x < n) implies #[trigger] self.parent_ok(h, s) == a.parent_ok(h, s) by {}
            assert(self.solid_sound()) by {
                assert forall|j: int| 0 <= j < self.len() && (#[trigger] self.e(j)).meta.solid implies self.parents_ok(j) by {
                    assert(a.parents_ok(j));
                    assert(a.slot_matches(a.e(j).tx.trunk, a.e(j).trunk_slot));
                    assert(a.slot_matches(a.e(j).tx.branch, a.e(j).branch_slot));
                }
            }
            assert(self.order_ok()) by {
                assert forall|j: int| 0 <= j < self.len() && (#[trigger] self.e(j)).meta.solid
                    implies {
                        &&& self.e(j).rank < self.solid_order@.len()
                        &&& self.solid_order@[self.e(j).rank as int] == j
                        &&& self.parent_ranked(self.e(j).tx.trunk, self.e(j).trunk_slot, self.e(j).rank)
                        &&& self.parent_ranked(self.e(j).tx.branch, self.e(j).branch_slot, self.e(j).rank)
                    } by {
                    assert(a.slot_matches(a.e(j).tx.trunk, a.e(j).trunk_slot));
                    assert(a.slot_matches(a.e(j).tx.branch, a.e(j).branch_slot));
                }
                assert forall|q: int| 0 <= q < self.solid_order@.len() implies {
                    let x = #[trigger] self.solid_order@[q];
                    &&& x < self.len()
                    &&& self.e(x as int).meta.solid
                    &&& self.e(x as int).rank == q
                } by {
                    let x = a.solid_order@[q];
                    assert(a.e(x as int).meta.solid);
                }
            }
            assert(self.tsa_pre()) by {
                assert forall|j: int| 0 <= j < self.len() implies #[trigger] self.tsa_ordered(j) && match self.e(j).meta.milestone_index {
                    Some(m) => self.e(j).tsa.otrsi == Some(m) && self.e(j).tsa.ytrsi == Some(m),
                    None => !self.e(j).meta.solid ==> self.e(j).tsa.otrsi is None && self.e(j).tsa.ytrsi is None,
                } by {
                    if j < n {
                        assert(a.tsa_exact(j));
                        assert(a.tsa_ordered(j));
                    }
                }
            }
        }
        let ghost p = *self;
        self.link_children(n);
        let ghost b = *self;
        self.settle();
        proof {
            assert forall|i: int| 0 <= i < a.len() implies same_identity(#[trigger] a.e(i), self.e(i)) by {
                assert(p.e(i) == a.e(i));
                assert(same_but_slots(p.e(i), b.e(i)));
                assert(same_identity(b.e(i), self.e(i)));
            }
            assert(same_but_slots(p.e(n as int), b.e(n as int)));
            assert(same_identity(b.e(n as int), self.e(n as int)));
            if a.confirmation_closed() {
                lemma_closed_kept(a, *self);
            }
        }
        true
    }
}

impl Tangle {
    /// Makes `h` a solid-entry-point, then solidifies and propagates.
    pub fn add_solid_entry_point(&mut self, h: TernaryHash)
        requires
            old(self).wf(),
        ensures
            final(self).wf(),
            old(self).confirmation_closed() ==> final(self).confirmation_closed(),
            final(self).seps@ == old(self).seps@.push(h),
            final(self).len() == old(self).len(),
            forall|i: int| 0 <= i < old(self).len() ==> same_identity(#[trigger] old(self).e(i), final(self).e(i)),
            final(self).milestones == old(self).milestones,
            final(self).snapshot_index == old(self).snapshot_index,
            final(self).last_solid_index == old(self).last_solid_index,
            final(self).last_index == old(self).last_index,
    {
        let ghost a = *self;
        self.seps.push(h);
        proof {
            assert forall|x: TernaryHash| a.is_sep(x) implies #[trigger] self.is_sep(x) by {
                let k = choose|k: int| 0 <= k < a.seps@.len() && a.seps@[k] == x;
                assert(self.seps@[k] == x);
            }
            lemma_core_kept(a, *self);
        }
        let ghost b = *self;
        self.settle();
        proof {
            assert forall|i: int| 0 <= i < a.len() implies same_identity(#[trigger] a.e(i), self.e(i)) by {
                assert(b.e(i) == a.e(i));
                assert(same_identity(b.e(i), self.e(i)));
            }
            assert forall|x: TernaryHash| a.is_sep(x) implies #[trigger] self.is_sep(x) by {
                assert(b.is_sep(x));
            }
            if a.confirmation_closed() {
                lemma_closed_kept(a, *self);
            }
        }
    }

    /// Solid: a solid-entry-point, or a transaction of the tangle whose solid flag is set.
    pub open spec fn solid_of(&self, h: TernaryHash) -> bool {
        self.is_sep(h) || exists|j: int| 0 <= j < self.len() && (#[trigger] self.e(j)).hash == h && self.e(j).meta.solid
    }

    pub fn is_solid(&self, h: &TernaryHash) -> (r: bool)
        requires
            self.wf(),
        ensures
            r == self.solid_of(*h),
    {
        if self.contains_solid_entry_point(h) {
            return true;
        }
        match self.find(h) {
            Some(i) => {
                let s = self.entries[i].meta.solid;
                proof {
                    if !s {
                        assert forall|j: int| 0 <= j < self.len() && (#[trigger] self.e(j)).hash == *h implies !self.e(j).meta.solid by {
                            if j != i {
                                assert(self.e(j).hash != self.e(i as int).hash);
                            }
                        }
                    }
                }
                s
            },
            None => false,
        }
    }

    pub fn get(&self, h: &TernaryHash) -> (r: Option<Transaction>)
        ensures
            match r {
                Some(t) => exists|j: int| 0 <= j < self.len() && (#[trigger] self.e(j)).hash == *h && self.e(j).tx == t,
                None => !self.contains(*h),
            },
    {
        match self.find(h) {
            Some(i) => Some(self.entries[i].tx),
            None => None,
        }
    }

    pub fn get_metadata(&self, h: &TernaryHash) -> (r: Option<TransactionMetadata>)
        ensures
            match r {
                Some(m) => exists|j: int| 0 <= j < self.len() && (#[trigger] self.e(j)).hash == *h && self.e(j).meta == m,
                None => !self.contains(*h),
            },
    {
        match self.find(h) {
            Some(i) => Some(self.entries[i].meta),
            None => None,
        }
    }

    /// Records the tail hash of the milestone with index `index`.
    pub fn add_milestone(&mut self, index: u32, tail: TernaryHash)
        requires
            old(self).wf(),
        ensures
            final(self).wf(),
            old(self).confirmation_closed() ==> final(self).confirmation_closed(),
            final(self).milestones@ == old(self).milestones@.push((index, tail)),
            final(self).entries == old(self).entries,
            final(self).seps == old(self).seps,
            final(self).solid_order == old(self).solid_order,
            final(self).snapshot_index == old(self).snapshot_index,
            final(self).last_solid_index == old(self).last_solid_index,
            final(self).last_index == old(self).last_index,
    {
        self.milestones.push((index, tail));
        proof {
            lemma_core_kept(*old(self), *self);
            if old(self).confirmation_closed() {
                lemma_closed_kept(*old(self), *self);
            }
        }
    }

    /// The tail hash recorded first for milestone `index`.
    pub open spec fn milestone_of(&self, index: u32) -> Option<TernaryHash> {
        first_milestone(self.milestones@, index)
    }

    pub fn milestone_hash(&self, index: u32) -> (r: Option<TernaryHash>)
        ensures
            r == self.milestone_of(index),
    {
        let mut i: usize = 0;
        assert(self.milestones@.subrange(0, self.milestones@.len() as int) =~= self.milestones@);
        while i < self.milestones.len()
            invariant
                i <= self.milestones@.len(),
                first_milestone(self.milestones@, index) == first_milestone(self.milestones@.subrange(i as int, self.milestones@.len() as int), index),
            decreases self.milestones@.len() - i,
        {
            let ghost rest = self.milestones@.subrange(i as int, self.milestones@.len() as int);
            assert(rest[0] == self.milestones@[i as int]);
            assert(rest.drop_first() =~= self.milestones@.subrange(i + 1, self.milestones@.len() as int));
            if self.milestones[i].0 == index {
                return Some(self.milestones[i].1);
            }
            i += 1;
        }
        None
    }

    pub fn contains_milestone(&self, index: u32) -> (r: bool)
        ensures
            r == self.milestone_of(index) is Some,
    {
        self.milestone_hash(index).is_some()
    }

    /// Raises the last milestone index to `index`, if it is larger.
    pub fn update_last_milestone_index(&mut self, index: u32)
        requires
            old(self).wf(),
        ensures
            final(self).wf(),
            old(self).confirmation_closed() ==> final(self).confirmation_closed(),
            final(self).last_index == if index > old(self).last_index { index } else { old(self).last_index },
            final(self).entries == old(self).entries,
            final(self).seps == old(self).seps,
            final(self).solid_order == old(self).solid_order,
            final(self).milestones == old(self).milestones,
            final(self).snapshot_index == old(self).snapshot_index,
            final(self).last_solid_index == old(self).last_solid_index,
    {
        if index > self.last_index {
            self.last_index = index;
        }
        proof {
            lemma_core_kept(*old(self), *self);
            if old(self).confirmation_closed() {
                lemma_closed_kept(*old(self), *self);
            }
        }
    }

    /// Raises the last solid milestone index to `index`, if it is larger, and
    /// the last milestone index with it where needed.
    pub fn update_last_solid_milestone_index(&mut self, index: u32)
        requires
            old(self).wf(),
        ensures
            final(self).wf(),
            old(self).confirmation_closed() ==> final(self).confirmation_closed(),
            final(self).last_solid_index == if index > old(self).last_solid_index { index } else { old(self).last_solid_index },
            final(self).last_index == if index > old(self).last_index { index } else { old(self).last_index },
            final(self).entries == old(self).entries,
            final(self).seps == old(self).seps,
            final(self).solid_order == old(self).solid_order,
            final(self).milestones == old(self).milestones,
            final(self).snapshot_index == old(self).snapshot_index,
    {
        if index > self.last_solid_index {
            self.last_solid_index = index;
        }
        if index > self.last_index {
            self.last_index = index;
        }
        proof {
            lemma_core_kept(*old(self), *self);
            if old(self).confirmation_closed() {
                lemma_closed_kept(*old(self), *self);
            }
        }
    }

    pub fn snapshot_milestone_index(&self) -> (r: u32)
        ensures
            r == self.snapshot_index,
    {
        self.snapshot_index
    }

    pub fn last_solid_milestone_index(&self) -> (r: u32)
        ensures
            r == self.last_solid_index,
    {
        self.last_solid_index
    }

    pub fn last_milestone_index(&self) -> (r: u32)
        ensures
            r == self.last_index,
    {
        self.last_index
    }

    /// Slot `c` has the transaction in slot `p` as a parent.
    pub open spec fn is_child(&self, c: int, p: int) -> bool {
        self.e(c).trunk_slot == Some(p as usize) || self.e(c).branch_slot == Some(p as usize)
    }

    /// The slots of the transactions that approve slot `p`, in slot order.
    pub fn children(&self, p: usize) -> (r: Vec<usize>)
        ensures
            forall|k: int| 0 <= k < r@.len() ==> r@[k] < self.len() && self.is_child(#[trigger] r@[k] as int, p as int),
            forall|c: int| 0 <= c < self.len() && self.is_child(c, p as int) ==> #[trigger] r@.contains(c as usize),
    {
        let mut r: Vec<usize> = Vec::new();
        let mut i: usize = 0;
        while i < self.entries.len()
            invariant
                i <= self.len(),
                forall|k: int| 0 <= k < r@.len() ==> r@[k] < self.len() && self.is_child(#[trigger] r@[k] as int, p as int),
                forall|c: int| 0 <= c < i && self.is_child(c, p as int) ==> #[trigger] r@.contains(c as usize),
            decreases self.len() - i,
        {
            if self.entries[i].trunk_slot == Some(p) || self.entries[i].branch_slot == Some(p) {
                let ghost old_r = r@;
                r.push(i);
                proof {
                    assert(r@[old_r.len() as int] == i);
                    assert forall|c: int| 0 <= c < i + 1 && self.is_child(c, p as int) implies #[trigger] r@.contains(c as usize) by {
                        if c < i {
                            assert(old_r.contains(c as usize));
                            let k = choose|k: int| 0 <= k < old_r.len() && old_r[k] == c as usize;
                            assert(r@[k] == c as usize);
                        } else {
                            assert(r@[old_r.len() as int] == c as usize);
                        }
                    }
                }
            }
            i += 1;
        }
        r
    }

    /// A tip: solid, and approved by no transaction of the tangle.
    pub open spec fn is_tip(&self, i: int) -> bool {
        &&& self.e(i).meta.solid
        &&& forall|c: int| 0 <= c < self.len() ==> !self.is_child(c, i)
    }

    fn has_children(&self, p: usize) -> (r: bool)
        ensures
            r == exists|c: int| 0 <= c < self.len() && self.is_child(c, p as int),
    {
        let mut i: usize = 0;
        while i < self.entries.len()
            invariant
                i <= self.len(),
                forall|c: int| 0 <= c < i ==> !self.is_child(c, p as int),
            decreases self.len() - i,
        {
            if self.entries[i].trunk_slot == Some(p) || self.entries[i].branch_slot == Some(p) {
                assert(self.is_child(i as int, p as int));
                return true;
            }
            i += 1;
        }
        false
    }

    /// The slots of the tips, in slot order.
    pub fn tips(&self) -> (r: Vec<usize>)
        ensures
            r@.len() <= self.len(),
            forall|a: int, b: int| 0 <= a < b < r@.len() ==> r@[a] < r@[b],
            forall|k: int| 0 <= k < r@.len() ==> r@[k] < self.len() && self.is_tip(#[trigger] r@[k] as int),
            forall|i: int| 0 <= i < self.len() && self.is_tip(i) ==> #[trigger] r@.contains(i as usize),
    {
        let mut r: Vec<usize> = Vec::new();
        let mut i: usize = 0;
        while i < self.entries.len()
            invariant
                i <= self.len(),
                r@.len() <= i,
                forall|k: int| 0 <= k < r@.len() ==> r@[k] < i,
                forall|a: int, b: int| 0 <= a < b < r@.len() ==> r@[a] < r@[b],
                forall|k: int| 0 <= k < r@.len() ==> r@[k] < self.len() && self.is_tip(#[trigger] r@[k] as int),
                forall|j: int| 0 <= j < i && self.is_tip(j) ==> #[trigger] r@.contains(j as usize),
            decreases self.len() - i,
        {
            if self.entries[i].meta.solid && !self.has_children(i) {
                let ghost old_r = r@;
                r.push(i);
                proof {
                    assert(r@[old_r.len() as int] == i);
                    assert forall|j: int| 0 <= j < i + 1 && self.is_tip(j) implies #[trigger] r@.contains(j as usize) by {
                        if j < i {
                            assert(old_r.contains(j as usize));
                            let k = choose|k: int| 0 <= k < old_r.len() && old_r[k] == j as usize;
                            assert(r@[k] == j as usize);
                        } else {
                            assert(r@[old_r.len() as int] == j as usize);
                        }
                    }
                }
            } else {
                proof {
                    if self.e(i as int).meta.solid {
                        let c = choose|c: int| 0 <= c < self.len() && self.is_child(c, i as int);
                        assert(!self.is_tip(i as int));
                    }
                }
            }
            i += 1;
        }
        r
    }

    /// The number of tips.
    pub fn num_tips(&self) -> (r: usize)
        ensures
            r == self.tip_count(self.len()),
    {
        let mut c: usize = 0;
        let mut i: usize = 0;
        while i < self.entries.len()
            invariant
                i <= self.len(),
                c <= i,
                c == self.tip_count(i as int),
            decreases self.len() - i,
        {
            if self.entries[i].meta.solid && !self.has_children(i) {
                c += 1;
            }
            i += 1;
        }
        c
    }

    /// Number of tips among the first `n` slots.
    pub open spec fn tip_count(&self, n: int) -> nat
        decreases n,
    {
        if n <= 0 {
            0
        } else {
            self.tip_count(n - 1) + if self.is_tip(n - 1) { 1nat } else { 0nat }
        }
    }
}

/// The first tail hash recorded for `index`.
pub open spec fn first_milestone(s: Seq<(u32, TernaryHash)>, index: u32) -> Option<TernaryHash>
    decreases s.len(),
{
    if s.len() == 0 {
        None
    } else if s[0].0 == index {
        Some(s[0].1)
    } else {
        first_milestone(s.drop_first(), index)
    }
}

/// The invariants read only the entries, the solid order, the
/// solid-entry-points (which may only grow) and the indices.
proof fn lemma_core_kept(a: Tangle, b: Tangle)
    requires
        a.wf(),
        b.entries@ == a.entries@,
        b.solid_order@ == a.solid_order@,
        b.snapshot_index == a.snapshot_index,
        forall|x: TernaryHash| a.is_sep(x) ==> #[trigger] b.is_sep(x),
    ensures
        b.slots_ok(),
        b.unique(),
        b.solid_sound(),
        b.order_ok(),
        b.tsa_pre(),
        b.seps@ == a.seps@ ==> b.solid_closed() && b.tsa_ok(),
{
    assert forall|j: int| 0 <= j < b.len() implies #[trigger] b.e(j) == a.e(j) by {}
    assert(b.slots_ok()) by {
        assert forall|j: int| 0 <= j < b.len() implies
            b.slot_matches((#[trigger] b.e(j)).tx.trunk, b.e(j).trunk_slot)
            && b.slot_matches(b.e(j).tx.branch, b.e(j).branch_slot) by {
            assert(a.slot_matches(a.e(j).tx.trunk, a.e(j).trunk_slot));
            assert(a.slot_matches(a.e(j).tx.branch, a.e(j).branch_slot));
        }
    }
    assert(b.unique());
    assert(b.solid_sound()) by {
        assert forall|j: int| 0 <= j < b.len() && (#[trigger] b.e(j)).meta.solid implies b.parents_ok(j) by {
            assert(a.parents_ok(j));
        }
    }
    assert(b.order_ok()) by {
        assert forall|j: int| 0 <= j < b.len() && (#[trigger] b.e(j)).meta.solid
            implies {
                &&& b.e(j).rank < b.solid_order@.len()
                &&& b.solid_order@[b.e(j).rank as int] == j
                &&& b.parent_ranked(b.e(j).tx.trunk, b.e(j).trunk_slot, b.e(j).rank)
                &&& b.parent_ranked(b.e(j).tx.branch, b.e(j).branch_slot, b.e(j).rank)
            } by {
            assert(a.e(j).meta.solid);
        }
        assert forall|q: int| 0 <= q < b.solid_order@.len() implies {
            let x = #[trigger] b.solid_order@[q];
            &&& x < b.len()
            &&& b.e(x as int).meta.solid
            &&& b.e(x as int).rank == q
        } by {
            let x = a.solid_order@[q];
            assert(a.e(x as int).meta.solid);
        }
    }
    assert(b.tsa_pre()) by {
        assert forall|j: int| 0 <= j < b.len() implies #[trigger] b.tsa_ordered(j) && match b.e(j).meta.milestone_index {
            Some(m) => b.e(j).tsa.otrsi == Some(m) && b.e(j).tsa.ytrsi == Some(m),
            None => !b.e(j).meta.solid ==> b.e(j).tsa.otrsi is None && b.e(j).tsa.ytrsi is None,
        } by {
            assert(a.tsa_exact(j));
        }
    }
    if b.seps@ == a.seps@ {
        assert forall|x: TernaryHash| #[trigger] b.is_sep(x) == a.is_sep(x) by {}
        assert(b.solid_closed()) by {
            assert forall|j: int| 0 <= j < b.len() implies ((#[trigger] b.e(j)).meta.solid <==> b.parents_ok(j)) by {
                assert(a.e(j).meta.solid <==> a.parents_ok(j));
            }
        }
        assert(b.tsa_ok()) by {
            assert forall|j: int| 0 <= j < b.len() implies #[trigger] b.tsa_exact(j) && b.tsa_ordered(j) by {
                assert(a.tsa_exact(j));
                assert(a.tsa_ordered(j));
            }
        }
    }
}

/// `b` has the same transaction, place, solidity and rank as `a`.
pub open spec fn same_structure(a: Entry, b: Entry) -> bool {
    &&& b.hash == a.hash
    &&& b.tx == a.tx
    &&& b.meta.solid == a.meta.solid
    &&& b.meta.tail == a.meta.tail
    &&& b.meta.arrival_timestamp == a.meta.arrival_timestamp
    &&& b.tsa.selected == a.tsa.selected
    &&& b.trunk_slot == a.trunk_slot
    &&& b.branch_slot == a.branch_slot
    &&& b.rank == a.rank
}

proof fn lemma_structure_kept(a: Tangle, b: Tangle)
    requires
        b.len() == a.len(),
        forall|m: int| 0 <= m < a.len() ==> same_structure(#[trigger] a.e(m), b.e(m)),
        b.seps == a.seps,
        b.solid_order == a.solid_order,
        b.snapshot_index == a.snapshot_index,
        b.last_solid_index == a.last_solid_index,
        b.last_index == a.last_index,
        a.slots_ok(),
        a.unique(),
        a.solid_closed(),
        a.order_ok(),
        a.indices_ok(),
    ensures
        b.slots_ok(),
        b.unique(),
        b.solid_closed(),
        b.order_ok(),
        b.indices_ok(),
{
    assert forall|m: int| 0 <= m < b.len() implies {
        &&& (#[trigger] b.e(m)).hash == a.e(m).hash
        &&& b.e(m).tx == a.e(m).tx
        &&& b.e(m).meta.solid == a.e(m).meta.solid
        &&& b.e(m).rank == a.e(m).rank
        &&& b.e(m).trunk_slot == a.e(m).trunk_slot
        &&& b.e(m).branch_slot == a.e(m).branch_slot
    } by {
        assert(same_structure(a.e(m), b.e(m)));
    }
    assert(b.slots_ok()) by {
        assert forall|j: int| 0 <= j < b.len() implies
            b.slot_matches((#[trigger] b.e(j)).tx.trunk, b.e(j).trunk_slot)
            && b.slot_matches(b.e(j).tx.branch, b.e(j).branch_slot) by {
            assert(a.slot_matches(a.e(j).tx.trunk, a.e(j).trunk_slot));
            assert(a.slot_matches(a.e(j).tx.branch, a.e(j).branch_slot));
        }
    }
    assert(b.solid_closed()) by {
        assert forall|j: int| 0 <= j < b.len() implies
            ((#[trigger] b.e(j)).meta.solid <==> b.parents_ok(j)) by {
            assert(a.slot_matches(a.e(j).tx.trunk, a.e(j).trunk_slot));
            assert(a.slot_matches(a.e(j).tx.branch, a.e(j).branch_slot));
            assert(a.e(j).meta.solid <==> a.parents_ok(j));
        }
    }
    assert(b.order_ok()) by {
        assert forall|j: int| 0 <= j < b.len() && (#[trigger] b.e(j)).meta.solid
            implies {
                &&& b.e(j).rank < b.solid_order@.len()
                &&& b.solid_order@[b.e(j).rank as int] == j
                &&& b.parent_ranked(b.e(j).tx.trunk, b.e(j).trunk_slot, b.e(j).rank)
                &&& b.parent_ranked(b.e(j).tx.branch, b.e(j).branch_slot, b.e(j).rank)
            } by {
            assert(a.e(j).meta.solid);
            assert(a.slot_matches(a.e(j).tx.trunk, a.e(j).trunk_slot));
            assert(a.slot_matches(a.e(j).tx.branch, a.e(j).branch_slot));
        }
        assert forall|q: int| 0 <= q < b.solid_order@.len() implies {
            let x = #[trigger] b.solid_order@[q];
            &&& x < b.len()
            &&& b.e(x as int).meta.solid
            &&& b.e(x as int).rank == q
        } by {
            let x = a.solid_order@[q];
            assert(a.e(x as int).meta.solid);
        }
    }
}

/// The flag of the first mark of slot `i`, if it is marked.
pub open spec fn mark_of(marks: Seq<(usize, bool)>, i: int) -> Option<bool>
    decreases marks.len(),
{
    if marks.len() == 0 {
        None
    } else if marks[0].0 as int == i {
        Some(marks[0].1)
    } else {
        mark_of(marks.drop_first(), i)
    }
}

pub proof fn lemma_mark_of_push(p: Seq<(usize, bool)>, x: (usize, bool), i: int)
    ensures
        mark_of(p.push(x), i) == if mark_of(p, i) is Some {
            mark_of(p, i)
        } else if x.0 as int == i {
            Some(x.1)
        } else {
            None
        },
    decreases p.len(),
{
    if p.len() > 0 {
        assert(p.push(x).drop_first() =~= p.drop_first().push(x));
        assert(p.push(x)[0] == p[0]);
        lemma_mark_of_push(p.drop_first(), x, i);
    } else {
        assert(p.push(x).drop_first() =~= Seq::<(usize, bool)>::empty());
        assert(p.push(x)[0] == x);
        assert(mark_of(Seq::<(usize, bool)>::empty(), i) is None);
    }
}

/// The metadata of a slot after confirmation: unchanged if it was confirmed
/// already or is not marked; else confirmed by `index` at `timestamp`, with
/// the flag of its first mark as its conflicting flag.
pub open spec fn confirmed_meta(m: TransactionMetadata, mark: Option<bool>, index: u32, timestamp: u64) -> TransactionMetadata {
    if m.milestone_index is Some {
        m
    } else {
        match mark {
            Some(c) => TransactionMetadata {
                milestone_index: Some(index),
                confirmation_timestamp: timestamp,
                conflicting: c,
                ..m
            },
            None => m,
        }
    }
}

/// What confirmation by milestone `index` makes of an entry: `b` is `a`,
/// confirmed by `index` unless it already was.
pub open spec fn confirmed_from(a: Entry, b: Entry, index: u32) -> bool {
    &&& same_structure(a, b)
    &&& (a.meta.milestone_index is Some ==> b.meta.milestone_index == a.meta.milestone_index && b.meta.conflicting
        == a.meta.conflicting)
    &&& (b.meta.milestone_index == a.meta.milestone_index || b.meta.milestone_index == Some(index))
}

impl Tangle {
    /// Confirms the slots listed, with milestone `index` and `timestamp`,
    /// flagging those marked conflicting; slots already confirmed keep their
    /// confirmation. OTRSI and YTRSI are brought up to date.
    pub fn confirm(&mut self, marks: &Vec<(usize, bool)>, index: u32, timestamp: u64)
        requires
            old(self).wf(),
            forall|k: int| 0 <= k < marks@.len() ==> (#[trigger] marks@[k]).0 < old(self).len(),
        ensures
            final(self).wf(),
            final(self).len() == old(self).len(),
            forall|i: int| 0 <= i < old(self).len() ==> confirmed_from(#[trigger] old(self).e(i), final(self).e(i), index),
            forall|k: int| 0 <= k < marks@.len() ==> (#[trigger] final(self).e(marks@[k].0 as int)).meta.milestone_index is Some,
            forall|i: int|
                0 <= i < old(self).len() && (#[trigger] old(self).e(i)).meta.milestone_index is None && final(self).e(i).meta.milestone_index is Some
                    ==> exists|q: int| 0 <= q < marks@.len() && marks@[q].0 == i,
            forall|i: int| 0 <= i < old(self).len() ==> #[trigger] final(self).e(i).meta == confirmed_meta(old(self).e(i).meta, mark_of(marks@, i), index, timestamp),
            final(self).seps == old(self).seps,
            final(self).milestones == old(self).milestones,
            final(self).snapshot_index == old(self).snapshot_index,
            final(self).last_solid_index == old(self).last_solid_index,
            final(self).last_index == old(self).last_index,
    {
        let ghost a = *self;
        proof {
            assert forall|j: int| 0 <= j < self.len() implies #[trigger] self.tsa_ordered(j) && match self.e(j).meta.milestone_index {
                Some(m) => self.e(j).tsa.otrsi == Some(m) && self.e(j).tsa.ytrsi == Some(m),
                None => !self.e(j).meta.solid ==> self.e(j).tsa.otrsi is None && self.e(j).tsa.ytrsi is None,
            } by {
                assert(self.tsa_exact(j));
            }
        }
        let mut k: usize = 0;
        while k < marks.len()
            invariant
                k <= marks@.len(),
                a.wf(),
                forall|q: int| 0 <= q < marks@.len() ==> (#[trigger] marks@[q]).0 < a.len(),
                self.len() == a.len(),
                forall|i: int| 0 <= i < a.len() ==> confirmed_from(#[trigger] a.e(i), self.e(i), index),
                forall|q: int| 0 <= q < k ==> (#[trigger] self.e(marks@[q].0 as int)).meta.milestone_index is Some,
                forall|i: int|
                    0 <= i < a.len() && (#[trigger] a.e(i)).meta.milestone_index is None && self.e(i).meta.milestone_index is Some
                        ==> exists|q: int| 0 <= q < k && marks@[q].0 == i,
                forall|i: int| 0 <= i < a.len() ==> #[trigger] self.e(i).meta == confirmed_meta(a.e(i).meta, mark_of(marks@.subrange(0, k as int), i), index, timestamp),
                self.tsa_pre(),
                self.seps == a.seps,
                self.solid_order == a.solid_order,
                self.milestones == a.milestones,
                self.snapshot_index == a.snapshot_index,
                self.last_solid_index == a.last_solid_index,
                self.last_index == a.last_index,
            decreases marks@.len() - k,
        {
            let (s, conflicting) = marks[k];
            let mut e = self.entries[s];
            proof {
                assert(marks@.subrange(0, k + 1) =~= marks@.subrange(0, k as int).push(marks@[k as int]));
                assert forall|i: int| 0 <= i < a.len() implies mark_of(#[trigger] marks@.subrange(0, k + 1), i) == if mark_of(marks@.subrange(0, k as int), i) is Some {
                    mark_of(marks@.subrange(0, k as int), i)
                } else if s as int == i {
                    Some(conflicting)
                } else {
                    None
                } by {
                    lemma_mark_of_push(marks@.subrange(0, k as int), marks@[k as int], i);
                }
                assert forall|i: int| 0 <= i < a.len() && #[trigger] mark_of(marks@.subrange(0, k as int), i) is Some
                    implies self.e(i).meta.milestone_index is Some by {
                    assert(self.e(i).meta == confirmed_meta(a.e(i).meta, mark_of(marks@.subrange(0, k as int), i), index, timestamp));
                }
            }
            if e.meta.milestone_index.is_none() {
                e.meta.milestone_index = Some(index);
                e.meta.confirmation_timestamp = timestamp;
                e.meta.conflicting = conflicting;
                e.tsa.otrsi = Some(index);
                e.tsa.ytrsi = Some(index);
                let ghost before = *self;
                self.entries.set(s, e);
                proof {
                    assert forall|i: int| 0 <= i < self.len() && i != s implies #[trigger] self.e(i) == before.e(i) by {}
                    assert forall|i: int| 0 <= i < a.len() implies confirmed_from(#[trigger] a.e(i), self.e(i), index) by {
                        assert(confirmed_from(a.e(i), before.e(i), index));
                    }
                    assert forall|j: int| 0 <= j < self.len() implies #[trigger] self.tsa_ordered(j) && match self.e(j).meta.milestone_index {
                        Some(m) => self.e(j).tsa.otrsi == Some(m) && self.e(j).tsa.ytrsi == Some(m),
                        None => !self.e(j).meta.solid ==> self.e(j).tsa.otrsi is None && self.e(j).tsa.ytrsi is None,
                    } by {
                        assert(before.tsa_ordered(j));
                    }
                    assert forall|q: int| 0 <= q < k + 1 implies (#[trigger] self.e(marks@[q].0 as int)).meta.milestone_index is Some by {
                        assert(before.e(marks@[q].0 as int).meta.milestone_index is Some || marks@[q].0 == s);
                    }
                    assert forall|i: int| 0 <= i < a.len() implies #[trigger] self.e(i).meta == confirmed_meta(a.e(i).meta, mark_of(marks@.subrange(0, k + 1), i), index, timestamp) by {
                        assert(before.e(i).meta == confirmed_meta(a.e(i).meta, mark_of(marks@.subrange(0, k as int), i), index, timestamp));
                    }
                    assert forall|i: int|
                        0 <= i < a.len() && (#[trigger] a.e(i)).meta.milestone_index is None && self.e(i).meta.milestone_index is Some
                            implies exists|q: int| 0 <= q < k + 1 && marks@[q].0 == i by {
                        if i == s {
                            assert(marks@[k as int].0 == i);
                        } else {
                            assert(before.e(i).meta.milestone_index is Some);
                            let q = choose|q: int| 0 <= q < k && marks@[q].0 == i;
                            assert(0 <= q < k + 1 && marks@[q].0 == i);
                        }
                    }
                }
            } else {
                proof {
                    assert forall|i: int| 0 <= i < a.len() implies #[trigger] self.e(i).meta == confirmed_meta(a.e(i).meta, mark_of(marks@.subrange(0, k + 1), i), index, timestamp) by {
                        assert(self.e(i).meta == confirmed_meta(a.e(i).meta, mark_of(marks@.subrange(0, k as int), i), index, timestamp));
                        if i == s && mark_of(marks@.subrange(0, k as int), i) is None {
                            assert(a.e(i).meta.milestone_index is Some);
                        }
                    }
                    assert forall|q: int| 0 <= q < k + 1 implies (#[trigger] self.e(marks@[q].0 as int)).meta.milestone_index is Some by {}
                }
            }
            k += 1;
        }
        proof {
            assert(marks@.subrange(0, k as int) =~= marks@);
            lemma_structure_kept(a, *self);
        }
        let ghost b = *self;
        self.recompute_tsa();
        proof {
            assert forall|i: int| 0 <= i < a.len() implies confirmed_from(#[trigger] a.e(i), self.e(i), index) by {
                assert(confirmed_from(a.e(i), b.e(i), index));
                assert(same_but_tsa(b.e(i), self.e(i)));
            }
            assert forall|q: int| 0 <= q < marks@.len() implies (#[trigger] self.e(marks@[q].0 as int)).meta.milestone_index is Some by {
                assert(b.e(marks@[q].0 as int).meta.milestone_index is Some);
                assert(same_but_tsa(b.e(marks@[q].0 as int), self.e(marks@[q].0 as int)));
            }
            assert forall|i: int|
                0 <= i < a.len() && (#[trigger] a.e(i)).meta.milestone_index is None && self.e(i).meta.milestone_index is Some
                    implies exists|q: int| 0 <= q < marks@.len() && marks@[q].0 == i by {
                assert(same_but_tsa(b.e(i), self.e(i)));
            }
            assert forall|i: int| 0 <= i < a.len() implies #[trigger] self.e(i).meta == confirmed_meta(a.e(i).meta, mark_of(marks@, i), index, timestamp) by {
                assert(same_but_tsa(b.e(i), self.e(i)));
                assert(b.e(i).meta == confirmed_meta(a.e(i).meta, mark_of(marks@, i), index, timestamp));
            }
        }
    }
}

impl Tangle {
    /// A parent of a transaction confirmed by milestone `m` is a
    /// solid-entry-point or a transaction confirmed by `m` or an earlier one.
    pub open spec fn parent_confirmed(&self, h: TernaryHash, s: Option<usize>, m: u32) -> bool {
        self.is_sep(h) || (s matches Some(x) && self.e(x as int).meta.milestone_index matches Some(mx) && mx <= m)
    }

    /// Confirmation is closed under parents, and no transaction is confirmed
    /// by a milestone above the last solid one.
    pub open spec fn confirmation_closed(&self) -> bool {
        forall|i: int|
            0 <= i < self.len() ==> match (#[trigger] self.e(i)).meta.milestone_index {
                Some(m) => {
                    &&& m <= self.last_solid_index
                    &&& self.parent_confirmed(self.e(i).tx.trunk, self.e(i).trunk_slot, m)
                    &&& self.parent_confirmed(self.e(i).tx.branch, self.e(i).branch_slot, m)
                },
                None => true,
            }
    }
}

/// Closure survives any change that keeps the transactions and
/// confirmations in place, adds only unconfirmed transactions, and only adds
/// solid-entry-points or raises the last solid milestone index.
pub proof fn lemma_closed_kept(a: Tangle, b: Tangle)
    requires
        a.wf(),
        b.wf(),
        a.confirmation_closed(),
        a.len() <= b.len(),
        forall|i: int|
            0 <= i < a.len() ==> (#[trigger] b.e(i)).hash == a.e(i).hash && b.e(i).tx == a.e(i).tx
                && b.e(i).meta.milestone_index == a.e(i).meta.milestone_index,
        forall|i: int| a.len() <= i < b.len() ==> (#[trigger] b.e(i)).meta.milestone_index is None,
        forall|h: TernaryHash| a.is_sep(h) ==> #[trigger] b.is_sep(h),
        a.last_solid_index <= b.last_solid_index,
    ensures
        b.confirmation_closed(),
{
    assert forall|i: int| 0 <= i < b.len() implies match (#[trigger] b.e(i)).meta.milestone_index {
        Some(m) => {
            &&& m <= b.last_solid_index
            &&& b.parent_confirmed(b.e(i).tx.trunk, b.e(i).trunk_slot, m)
            &&& b.parent_confirmed(b.e(i).tx.branch, b.e(i).branch_slot, m)
        },
        None => true,
    } by {
        if let Some(m) = b.e(i).meta.milestone_index {
            if i >= a.len() {
                assert(b.e(i).meta.milestone_index is None);
            }
            let e = a.e(i);
            assert(a.slot_matches(e.tx.trunk, e.trunk_slot));
            assert(a.slot_matches(e.tx.branch, e.branch_slot));
            assert(b.slot_matches(b.e(i).tx.trunk, b.e(i).trunk_slot));
            assert(b.slot_matches(b.e(i).tx.branch, b.e(i).branch_slot));
            if !a.is_sep(e.tx.trunk) {
                let x = e.trunk_slot->Some_0 as int;
                assert(b.e(x).hash == e.tx.trunk);
                let y = b.e(i).trunk_slot->Some_0 as int;
                if y != x {
                    assert(b.e(y).hash != b.e(x).hash);
                }
            }
            if !a.is_sep(e.tx.branch) {
                let x = e.branch_slot->Some_0 as int;
                assert(b.e(x).hash == e.tx.branch);
                let y = b.e(i).branch_slot->Some_0 as int;
                if y != x {
                    assert(b.e(y).hash != b.e(x).hash);
                }
            }
        }
    }
}
} // verus!
