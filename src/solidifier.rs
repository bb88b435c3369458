use vstd::prelude::*;
use crate::hash::TernaryHash;
use crate::whiteflag::hash_in;
use crate::tangle::Tangle;

verus! {

/// Number of milestones past the last solid one that a trigger requests.
pub const MILESTONE_REQUEST_RANGE: u32 = 50;

/// What the milestone solidifier reacts to.
pub enum MilestoneSolidifierEvent {
    /// Periodic: request missing milestones and nudge the transaction solidifiers.
    Trigger,
    /// The milestone with this index became solid.
    NewSolidMilestone(u32),
    /// A transaction of the milestone with this index should be solidified.
    NewTransaction(TernaryHash, u32),
}

/// What the milestone solidifier asks its surroundings to do.
#[derive(Clone, Copy, Debug)]
pub enum SolidifierAction {
    /// Ask peers for the milestone with this index.
    RequestMilestone(u32),
    /// Hand a target to the transaction solidifier at position `solidifier`.
    Solidify { solidifier: usize, hash: TernaryHash, index: u32 },
    /// A solid milestone other than the expected one was announced; ignored.
    UnexpectedSolidMilestone { expected: u32, got: u32 },
    /// No transaction solidifier runs for this index; ignored.
    OutOfWindow(u32),
}

/// The decisions of the milestone solidifier: the index of the next
/// milestone to solidify, and the number of transaction solidifiers, each
/// one for a milestone from `lower_index` on.
pub struct MilestoneSolidifier {
    pub lower_index: u32,
    pub window: usize,
}

/// Requests for the milestones among `lower .. lower + n` that the tangle lacks.
pub open spec fn milestone_requests(t: Tangle, lower: u32, n: int) -> Seq<SolidifierAction>
    decreases n,
{
    if n <= 0 {
        Seq::empty()
    } else {
        let idx = lower + n - 1;
        let prev = milestone_requests(t, lower, n - 1);
        if idx <= u32::MAX && t.milestone_of(idx as u32) is None {
            prev.push(SolidifierAction::RequestMilestone(idx as u32))
        } else {
            prev
        }
    }
}

/// Targets for the first `n` transaction solidifiers: each milestone of the
/// window whose tail is known and not yet solid.
pub open spec fn solidify_targets(t: Tangle, lower: u32, n: int) -> Seq<SolidifierAction>
    decreases n,
{
    if n <= 0 {
        Seq::empty()
    } else {
        let idx = lower + n - 1;
        let prev = solidify_targets(t, lower, n - 1);
        if idx <= u32::MAX {
            match t.milestone_of(idx as u32) {
                Some(h) => if !t.solid_of(h) {
                    prev.push(SolidifierAction::Solidify { solidifier: (n - 1) as usize, hash: h, index: idx as u32 })
                } else {
                    prev
                },
                None => prev,
            }
        } else {
            prev
        }
    }
}

impl MilestoneSolidifier {
    /// Starts right after the last solid milestone.
    pub fn new(last_solid_index: u32, window: usize) -> (r: MilestoneSolidifier)
        requires
            last_solid_index < u32::MAX,
        ensures
            r.lower_index == last_solid_index + 1,
            r.window == window,
    {
        MilestoneSolidifier { lower_index: last_solid_index + 1, window }
    }

    /// Decides what to do on an event.
    pub fn step(&mut self, t: &Tangle, event: MilestoneSolidifierEvent) -> (r: Vec<SolidifierAction>)
        requires
            t.wf(),
        ensures
            final(self).window == old(self).window,
            match event {
                MilestoneSolidifierEvent::Trigger => {
                    &&& *final(self) == *old(self)
                    &&& r@ == milestone_requests(*t, old(self).lower_index, MILESTONE_REQUEST_RANGE as int) + solidify_targets(
                        *t,
                        old(self).lower_index,
                        old(self).window as int,
                    )
                },
                MilestoneSolidifierEvent::NewSolidMilestone(i) => if i == old(self).lower_index && i < u32::MAX {
                    &&& final(self).lower_index == i + 1
                    &&& r@.len() == 0
                } else {
                    &&& *final(self) == *old(self)
                    &&& r@ == seq![SolidifierAction::UnexpectedSolidMilestone { expected: old(self).lower_index, got: i }]
                },
                MilestoneSolidifierEvent::NewTransaction(h, i) => {
                    &&& *final(self) == *old(self)
                    &&& if old(self).lower_index <= i < old(self).lower_index + old(self).window {
                        r@ == seq![SolidifierAction::Solidify { solidifier: (i - old(self).lower_index) as usize, hash: h, index: i }]
                    } else {
                        r@ == seq![SolidifierAction::OutOfWindow(i)]
                    }
                },
            },
    {
        let mut r: Vec<SolidifierAction> = Vec::new();
        match event {
            MilestoneSolidifierEvent::Trigger => {
                let lower = self.lower_index;
                let mut k: u32 = 0;
                while k < MILESTONE_REQUEST_RANGE
                    invariant
                        k <= MILESTONE_REQUEST_RANGE,
                        r@ == milestone_requests(*t, lower, k as int),
                    decreases MILESTONE_REQUEST_RANGE - k,
                {
                    if lower as u64 + k as u64 <= u32::MAX as u64 {
                        let idx = lower + k;
                        if !t.contains_milestone(idx) {
                            r.push(SolidifierAction::RequestMilestone(idx));
                        }
                    }
                    k += 1;
                }
                let ghost requests = r@;
                let mut j: usize = 0;
                let mut targets: Vec<SolidifierAction> = Vec::new();
                while j < self.window
                    invariant
                        j <= self.window,
                        lower == self.lower_index,
                        t.wf(),
                        targets@ == solidify_targets(*t, lower, j as int),
                    decreases self.window - j,
                {
                    if j as u64 <= (u32::MAX - lower) as u64 {
                        let idx = lower + j as u32;
                        match t.milestone_hash(idx) {
                            Some(h) => {
                                if !t.is_solid(&h) {
                                    targets.push(SolidifierAction::Solidify { solidifier: j, hash: h, index: idx });
                                }
                            },
                            None => {},
                        }
                    }
                    j += 1;
                }
                r.append(&mut targets);
                assert(r@ =~= requests + solidify_targets(*t, lower, self.window as int));
            },
            MilestoneSolidifierEvent::NewSolidMilestone(i) => {
                if i == self.lower_index && i < u32::MAX {
                    self.lower_index = i + 1;
                } else {
                    r.push(SolidifierAction::UnexpectedSolidMilestone { expected: self.lower_index, got: i });
                }
            },
            MilestoneSolidifierEvent::NewTransaction(h, i) => {
                if self.lower_index <= i && ((i - self.lower_index) as usize) < self.window {
                    r.push(SolidifierAction::Solidify { solidifier: (i - self.lower_index) as usize, hash: h, index: i });
                } else {
                    r.push(SolidifierAction::OutOfWindow(i));
                }
            },
        }
        r
    }
}


/// Number of the first `n` flags that are not set.
pub open spec fn unseen(seen: Seq<bool>, n: int) -> nat
    decreases n,
{
    if n <= 0 {
        0
    } else {
        unseen(seen, n - 1) + if seen[n - 1] { 0nat } else { 1nat }
    }
}

proof fn lemma_unseen_set(seen: Seq<bool>, i: int, n: int)
    requires
        0 <= i < seen.len(),
        !seen[i],
        n <= seen.len(),
    ensures
        unseen(seen.update(i, true), n) <= unseen(seen, n),
        i < n ==> unseen(seen.update(i, true), n) < unseen(seen, n),
    decreases n,
{
    if n > 0 {
        lemma_unseen_set(seen, i, n - 1);
    }
}

/// A hash the tangle lacks: neither a transaction of it nor a solid-entry-point.
pub open spec fn is_missing(t: Tangle, h: TernaryHash) -> bool {
    !t.contains(h) && !t.is_sep(h)
}

/// Some transaction of the tangle has `h` as a parent.
pub open spec fn is_parent_hash(t: Tangle, h: TernaryHash) -> bool {
    exists|i: int| 0 <= i < t.len() && ((#[trigger] t.e(i)).tx.trunk == h || t.e(i).tx.branch == h)
}

/// A parent is followed from a walked set `S`: a solid-entry-point, a
/// solid transaction, a transaction in `S`, or a missing hash listed in `m`.
pub open spec fn parent_followed(t: Tangle, walked: Set<int>, h: TernaryHash, s: Option<usize>, m: Seq<TernaryHash>) -> bool {
    t.is_sep(h) || match s {
        Some(y) => t.e(y as int).meta.solid || walked.contains(y as int),
        None => m.contains(h),
    }
}

/// Both parents of slot `x` are followed.
pub open spec fn parents_followed(t: Tangle, walked: Set<int>, x: int, m: Seq<TernaryHash>) -> bool {
    parent_followed(t, walked, t.e(x).tx.trunk, t.e(x).trunk_slot, m) && parent_followed(
        t,
        walked,
        t.e(x).tx.branch,
        t.e(x).branch_slot,
        m,
    )
}

/// The walk of a transaction solidifier: from the transaction in slot
/// `root`, through the ancestors that are present but not solid, collects
/// the parents that the tangle lacks (once each), to be requested. Nothing
/// is collected from a solid transaction. From a transaction that is not
/// solid, the walk covers a set of slots that holds `root` and, with each of
/// its slots, every present, non-solid parent; every missing parent of a
/// slot of that set is collected.
pub fn missing_ancestors(t: &Tangle, root: usize) -> (r: Vec<TernaryHash>)
    requires
        t.wf(),
        root < t.len(),
    ensures
        t.e(root as int).meta.solid ==> r@.len() == 0,
        forall|k: int| 0 <= k < r@.len() ==> is_missing(*t, #[trigger] r@[k]) && is_parent_hash(*t, r@[k]),
        forall|a: int, b: int| 0 <= a < b < r@.len() ==> r@[a] != r@[b],
        !t.e(root as int).meta.solid ==> exists|walked: Set<int>|
            #[trigger] walked.contains(root as int) && forall|x: int|
                #[trigger] walked.contains(x) ==> 0 <= x < t.len() && parents_followed(*t, walked, x, r@),
{
    let mut missing: Vec<TernaryHash> = Vec::new();
    if t.entries[root].meta.solid {
        return missing;
    }
    let n = t.entries.len();
    let mut seen: Vec<bool> = Vec::new();
    let mut i: usize = 0;
    while i < n
        invariant
            n == t.len(),
            i <= n,
            seen@.len() == i,
            forall|j: int| 0 <= j < i ==> !seen@[j],
        decreases n - i,
    {
        seen.push(false);
        i += 1;
    }
    seen.set(root, true);
    let mut stack: Vec<usize> = Vec::new();
    stack.push(root);
    proof {
        assert(stack@[0] == root);
        assert forall|x: int| 0 <= x < n && #[trigger] seen@[x] && !stack@.contains(x as usize) implies parents_followed(
            *t,
            Set::new(|y: int| 0 <= y < n && seen@[y]),
            x,
            missing@,
        ) by {
            assert(x == root);
        }
    }
    while stack.len() > 0
        invariant
            t.wf(),
            n == t.len(),
            seen@.len() == n,
            root < n,
            seen@[root as int],
            forall|k: int| 0 <= k < stack@.len() ==> #[trigger] stack@[k] < n && seen@[stack@[k] as int],
            forall|a: int, b: int| 0 <= a < b < stack@.len() ==> stack@[a] != stack@[b],
            forall|k: int| 0 <= k < missing@.len() ==> is_missing(*t, #[trigger] missing@[k]) && is_parent_hash(*t, missing@[k]),
            forall|a: int, b: int| 0 <= a < b < missing@.len() ==> missing@[a] != missing@[b],
            forall|x: int|
                0 <= x < n && #[trigger] seen@[x] && !stack@.contains(x as usize) ==> parents_followed(
                    *t,
                    Set::new(|y: int| 0 <= y < n && seen@[y]),
                    x,
                    missing@,
                ),
        decreases unseen(seen@, n as int), stack@.len(),
    {
        let ghost st_pre = stack@;
        let top = stack.pop().unwrap();
        let ghost st_after = stack@;
        proof {
            assert(st_after =~= st_pre.drop_last());
            assert(top == st_pre[st_pre.len() - 1]);
        }
        let e = t.entries[top];
        proof {
            assert(t.slot_matches(t.e(top as int).tx.trunk, t.e(top as int).trunk_slot));
            assert(t.slot_matches(t.e(top as int).tx.branch, t.e(top as int).branch_slot));
        }
        let ghost unseen0 = unseen(seen@, n as int);
        let ghost len0 = stack@.len();
        let ghost seen0 = seen@;
        let ghost m0 = missing@;
        let parents: [(TernaryHash, Option<usize>); 2] = [(e.tx.trunk, e.trunk_slot), (e.tx.branch, e.branch_slot)];
        let mut q: usize = 0;
        while q < 2
            invariant
                t.wf(),
                n == t.len(),
                seen@.len() == n,
                root < n,
                seen@[root as int],
                top < n,
                seen@[top as int],
                e == t.e(top as int),
                parents@ == seq![(e.tx.trunk, e.trunk_slot), (e.tx.branch, e.branch_slot)],
                t.slot_matches(e.tx.trunk, e.trunk_slot),
                t.slot_matches(e.tx.branch, e.branch_slot),
                q <= 2,
                forall|k: int| 0 <= k < stack@.len() ==> #[trigger] stack@[k] < n && seen@[stack@[k] as int],
                forall|a: int, b: int| 0 <= a < b < stack@.len() ==> stack@[a] != stack@[b],
                !stack@.contains(top),
                forall|k: int| 0 <= k < missing@.len() ==> is_missing(*t, #[trigger] missing@[k]) && is_parent_hash(*t, missing@[k]),
                forall|a: int, b: int| 0 <= a < b < missing@.len() ==> missing@[a] != missing@[b],
                unseen(seen@, n as int) < unseen0 || (unseen(seen@, n as int) == unseen0 && stack@.len() == len0),
                forall|y: int| 0 <= y < n && seen0[y] ==> #[trigger] seen@[y],
                forall|y: int| 0 <= y < n && seen@[y] && !seen0[y] ==> #[trigger] stack@.contains(y as usize),
                forall|h: TernaryHash| m0.contains(h) ==> #[trigger] missing@.contains(h),
                stack@.len() >= st_after.len(),
                forall|j: int| 0 <= j < st_after.len() ==> #[trigger] stack@[j] == st_after[j],
                forall|k: int| 0 <= k < q ==> parent_followed(*t, Set::new(|y: int| 0 <= y < n && seen@[y]), (#[trigger] parents@[k]).0, parents@[k].1, missing@),
            decreases 2 - q,
        {
            let (ph, ps) = parents[q];
            proof {
                assert(is_parent_hash(*t, ph)) by {
                    assert(t.e(top as int).tx.trunk == ph || t.e(top as int).tx.branch == ph);
                }
            }
            let ghost seen_q = seen@;
            let ghost miss_q = missing@;
            if !t.contains_solid_entry_point(&ph) {
                match ps {
                    Some(x) => {
                        if !seen[x] && !t.entries[x].meta.solid {
                            proof {
                                lemma_unseen_set(seen@, x as int, n as int);
                            }
                            let ghost st0 = stack@;
                            seen.set(x, true);
                            stack.push(x);
                            proof {
                                assert forall|a: int, b: int| 0 <= a < b < stack@.len() implies stack@[a] != stack@[b] by {
                                    if b == stack@.len() - 1 {
                                        assert(seen_q[st0[a] as int]);
                                    }
                                }
                                assert(stack@[stack@.len() - 1] == x);
                                assert forall|y: int| 0 <= y < n && seen@[y] && !seen0[y] implies #[trigger] stack@.contains(y as usize) by {
                                    if y != x {
                                        assert(st0.contains(y as usize));
                                        let j = choose|j: int| 0 <= j < st0.len() && st0[j] == y as usize;
                                        assert(stack@[j] == y as usize);
                                    }
                                }
                                assert(!stack@.contains(top)) by {
                                    if stack@.contains(top) {
                                        let j = choose|j: int| 0 <= j < stack@.len() && stack@[j] == top;
                                        if j < st0.len() {
                                            assert(st0[j] == top);
                                        }
                                    }
                                }
                            }
                        }
                    },
                    None => {
                        if !hash_in(&missing, &ph) {
                            let ghost mm = missing@;
                            missing.push(ph);
                            proof {
                                assert(missing@[mm.len() as int] == ph);
                                assert forall|h: TernaryHash| mm.contains(h) implies #[trigger] missing@.contains(h) by {
                                    let j = choose|j: int| 0 <= j < mm.len() && mm[j] == h;
                                    assert(missing@[j] == h);
                                }
                            }
                        }
                    },
                }
            }
            proof {
                let sset = Set::new(|y: int| 0 <= y < n && seen@[y]);
                let sq = Set::new(|y: int| 0 <= y < n && seen_q[y]);
                assert forall|k: int| 0 <= k < q + 1 implies parent_followed(*t, sset, (#[trigger] parents@[k]).0, parents@[k].1, missing@) by {
                    if k < q {
                        assert(parent_followed(*t, sq, parents@[k].0, parents@[k].1, miss_q));
                        if let Some(y) = parents@[k].1 {
                            if sq.contains(y as int) {
                                assert(seen@[y as int]);
                            }
                        } else {
                            if miss_q.contains(parents@[k].0) {
                                let j = choose|j: int| 0 <= j < miss_q.len() && miss_q[j] == parents@[k].0;
                                if missing@.len() > miss_q.len() {
                                    assert(missing@[j] == parents@[k].0);
                                }
                            }
                        }
                    } else {
                        assert(parents@[k] == (ph, ps));
                    }
                }
            }
            q += 1;
        }
        proof {
            let sset = Set::new(|y: int| 0 <= y < n && seen@[y]);
            let s0set = Set::new(|y: int| 0 <= y < n && seen0[y]);
            assert(parents@[0] == (e.tx.trunk, e.trunk_slot));
            assert(parents@[1] == (e.tx.branch, e.branch_slot));
            assert forall|x: int|
                0 <= x < n && #[trigger] seen@[x] && !stack@.contains(x as usize) implies parents_followed(*t, sset, x, missing@) by {
                if x == top as int {
                } else {
                    assert(seen0[x]);
                    assert(!st_pre.contains(x as usize)) by {
                        if st_pre.contains(x as usize) {
                            let j = choose|j: int| 0 <= j < st_pre.len() && st_pre[j] == x as usize;
                            assert(j < st_after.len());
                            assert(stack@[j] == x as usize);
                        }
                    }
                    assert(parents_followed(*t, s0set, x, m0));
                    let ex = t.e(x);
                    assert forall|h: TernaryHash, sl: Option<usize>| parent_followed(*t, s0set, h, sl, m0) implies #[trigger] parent_followed(*t, sset, h, sl, missing@) by {
                        if let Some(y) = sl {
                            if s0set.contains(y as int) {
                                assert(seen@[y as int]);
                            }
                        }
                    }
                }
            }
        }
    }
    proof {
        let walked = Set::new(|y: int| 0 <= y < n && seen@[y]);
        assert(walked.contains(root as int));
        assert forall|x: int| #[trigger] walked.contains(x) implies 0 <= x < t.len() && parents_followed(*t, walked, x, missing@) by {
            assert(seen@[x]);
        }
    }
    missing
}

} // verus!
