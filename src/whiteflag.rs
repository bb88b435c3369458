use vstd::prelude::*;
use crate::hash::{TernaryHash, hash_eq};
use crate::ledger::{
    IOTA_SUPPLY, LedgerState, add_to_key, apply_mutations, conflicts, has_key, keys_unique, lemma_val_at,
    lemma_val_range, sum_of, val_of, value_of_key,
};
use crate::tangle::{Tangle, confirmed_from, confirmed_meta, mark_of};

verus! {

/// Why a milestone could not be confirmed.
#[derive(Clone, Copy, Debug, PartialEq, Eq, Structural)]
pub enum Error {
    /// An ancestor, or a transaction of a bundle, is not in the tangle (or not solid).
    MissingBundle,
    /// The walk reached a transaction that is not the tail of its bundle.
    NotATail,
    /// A bundle's values do not balance or are out of range.
    InvalidBundle,
}

/// The slots of the bundle members from position `k` on, starting at slot
/// `s`: each next member is the trunk of the previous one, carries the same
/// bundle hash and last index, and has the next index.
pub open spec fn chain_from(t: Tangle, s: int, k: int, last: u64, bundle: TernaryHash) -> Option<Seq<usize>>
    decreases last - k,
{
    if k >= last {
        Some(seq![s as usize])
    } else {
        match t.e(s).trunk_slot {
            Some(n) => {
                let m = t.e(n as int).tx;
                if m.bundle == bundle && m.current_index == k + 1 && m.last_index == last {
                    match chain_from(t, n as int, k + 1, last, bundle) {
                        Some(rest) => Some(seq![s as usize] + rest),
                        None => None,
                    }
                } else {
                    None
                }
            },
            None => None,
        }
    }
}

/// The slots of the bundle whose tail is in slot `tail`, from the tail to
/// the head, where the bundle can be put together from the tangle.
pub open spec fn bundle_of(t: Tangle, tail: int) -> Option<Seq<usize>> {
    let tx = t.e(tail).tx;
    if tx.current_index == 0 {
        chain_from(t, tail, 0, tx.last_index, tx.bundle)
    } else {
        None
    }
}

proof fn lemma_chain_len(t: Tangle, s: int, k: int, last: u64, bundle: TernaryHash)
    requires
        0 <= k <= last,
    ensures
        chain_from(t, s, k, last, bundle) matches Some(r) ==> r.len() == last - k + 1 && r[0] == s as usize,
    decreases last - k,
{
    if k < last {
        if let Some(n) = t.e(s).trunk_slot {
            lemma_chain_len(t, n as int, k + 1, last, bundle);
        }
    }
}

/// Puts together the bundle whose tail is in slot `tail`.
pub fn load_bundle(t: &Tangle, tail: usize) -> (r: Option<Vec<usize>>)
    requires
        t.wf(),
        tail < t.len(),
    ensures
        r matches Some(v) ==> bundle_of(*t, tail as int) == Some(v@),
        r is None ==> bundle_of(*t, tail as int) is None,
        r matches Some(v) ==> v@.len() >= 1 && forall|k: int| 0 <= k < v@.len() ==> #[trigger] v@[k] < t.len(),
{
    let tx = t.entries[tail].tx;
    if tx.current_index != 0 {
        return None;
    }
    let last = tx.last_index;
    let mut slots: Vec<usize> = Vec::new();
    slots.push(tail);
    let mut cur = tail;
    let mut k: u64 = 0;
    proof {
        assert(slots@ =~= seq![tail]);
    }
    while k < last
        invariant
            t.wf(),
            tail < t.len(),
            cur < t.len(),
            k <= last,
            last == tx.last_index,
            tx == t.e(tail as int).tx,
            tx.current_index == 0,
            slots@.len() == k + 1,
            slots@.last() == cur,
            forall|j: int| 0 <= j < slots@.len() ==> #[trigger] slots@[j] < t.len(),
            bundle_of(*t, tail as int) == match chain_from(*t, cur as int, k as int, last, tx.bundle) {
                Some(rest) => Some(slots@.drop_last() + rest),
                None => None::<Seq<usize>>,
            },
        decreases last - k,
    {
        let e = t.entries[cur];
        proof {
            assert(t.slot_matches(t.e(cur as int).tx.trunk, t.e(cur as int).trunk_slot));
        }
        match e.trunk_slot {
            Some(n) => {
                let m = t.entries[n].tx;
                if !(hash_eq(&m.bundle, &tx.bundle) && m.current_index == k + 1 && m.last_index == last) {
                    return None;
                }
                let ghost old_slots = slots@;
                proof {
                    lemma_chain_len(*t, n as int, k + 1, last, tx.bundle);
                    match chain_from(*t, n as int, k + 1, last, tx.bundle) {
                        Some(rest) => {
                            assert(old_slots.drop_last() + (seq![cur] + rest) =~= old_slots.push(n).drop_last() + rest) by {
                                assert(old_slots =~= old_slots.drop_last().push(cur));
                            }
                        },
                        None => {},
                    }
                }
                slots.push(n);
                cur = n;
                k = k + 1;
            },
            None => {
                return None;
            },
        }
    }
    proof {
        assert(slots@.drop_last() + seq![cur] =~= slots@) by {
            assert(slots@ =~= slots@.drop_last().push(cur));
        }
    }
    Some(slots)
}

/// Sum of the values of the transactions in `slots`.
pub open spec fn bundle_sum(t: Tangle, slots: Seq<usize>) -> int
    decreases slots.len(),
{
    if slots.len() == 0 {
        0
    } else {
        bundle_sum(t, slots.drop_last()) + t.e(slots.last() as int).tx.value
    }
}

/// Sum of the values that the transactions in `slots` move at address `a`.
pub open spec fn bundle_diff(t: Tangle, slots: Seq<usize>, a: TernaryHash) -> int
    decreases slots.len(),
{
    if slots.len() == 0 {
        0
    } else {
        bundle_diff(t, slots.drop_last(), a) + if t.e(slots.last() as int).tx.address == a {
            t.e(slots.last() as int).tx.value as int
        } else {
            0
        }
    }
}

/// The values of a bundle balance and none exceeds the supply.
pub open spec fn bundle_valid(t: Tangle, slots: Seq<usize>) -> bool {
    &&& bundle_sum(t, slots) == 0
    &&& forall|k: int| 0 <= k < slots.len() ==> -IOTA_SUPPLY <= #[trigger] t.e(slots[k] as int).tx.value <= IOTA_SUPPLY
}

/// The per-address sums of every prefix of the bundle fit in 64 bits.
pub open spec fn bundle_fits(t: Tangle, slots: Seq<usize>) -> bool {
    forall|k: int, a: TernaryHash|
        0 <= k <= slots.len() ==> i64::MIN <= #[trigger] bundle_diff(t, slots.subrange(0, k), a) <= i64::MAX
}

/// Some transaction of the bundle is at address `a`.
pub open spec fn bundle_touches(t: Tangle, slots: Seq<usize>, a: TernaryHash) -> bool {
    exists|k: int| 0 <= k < slots.len() && t.e((#[trigger] slots[k]) as int).tx.address == a
}

/// The mutations of a bundle, one per address it touches: the signed sum of
/// what its transactions move there. `None` exactly where the bundle is not
/// valid or such a sum does not fit in 64 bits.
pub fn ledger_mutations(t: &Tangle, slots: &Vec<usize>) -> (r: Option<Vec<(TernaryHash, i64)>>)
    requires
        forall|k: int| 0 <= k < slots@.len() ==> #[trigger] slots@[k] < t.len(),
    ensures
        r is Some <==> bundle_valid(*t, slots@) && bundle_fits(*t, slots@),
        r matches Some(m) ==> {
            &&& keys_unique(m@)
            &&& sum_of(m@) == 0
            &&& forall|a: TernaryHash| #[trigger] val_of(m@, a) == bundle_diff(*t, slots@, a)
            &&& forall|a: TernaryHash| #[trigger] has_key(m@, a) <==> bundle_touches(*t, slots@, a)
        },
{
    let mut m: Vec<(TernaryHash, i64)> = Vec::new();
    let mut total: i128 = 0;
    let mut i: usize = 0;
    proof {
        assert(slots@.subrange(0, 0) =~= Seq::<usize>::empty());
        assert forall|k: int, a: TernaryHash| 0 <= k <= 0 implies i64::MIN <= #[trigger] bundle_diff(*t, slots@.subrange(0, k), a) <= i64::MAX by {
            assert(slots@.subrange(0, k) =~= Seq::<usize>::empty());
        }
    }
    while i < slots.len()
        invariant
            i <= slots@.len(),
            forall|k: int| 0 <= k < slots@.len() ==> #[trigger] slots@[k] < t.len(),
            keys_unique(m@),
            forall|k: int| 0 <= k < i ==> -IOTA_SUPPLY <= #[trigger] t.e(slots@[k] as int).tx.value <= IOTA_SUPPLY,
            sum_of(m@) == bundle_sum(*t, slots@.subrange(0, i as int)),
            total == sum_of(m@),
            -IOTA_SUPPLY * i <= total <= IOTA_SUPPLY * i,
            forall|a: TernaryHash| #[trigger] val_of(m@, a) == bundle_diff(*t, slots@.subrange(0, i as int), a),
            forall|a: TernaryHash| #[trigger] has_key(m@, a) <==> bundle_touches(*t, slots@.subrange(0, i as int), a),
            forall|k: int, a: TernaryHash|
                0 <= k <= i ==> i64::MIN <= #[trigger] bundle_diff(*t, slots@.subrange(0, k), a) <= i64::MAX,
        decreases slots@.len() - i,
    {
        let tx = t.entries[slots[i]].tx;
        let v = tx.value;
        if v < -IOTA_SUPPLY || v > IOTA_SUPPLY {
            proof {
                assert(t.e(slots@[i as int] as int).tx.value == v);
                assert(!bundle_valid(*t, slots@));
            }
            return None;
        }
        let cur = value_of_key(&m, &tx.address);
        let ghost sub = slots@.subrange(0, i as int);
        let ghost sub1 = slots@.subrange(0, i + 1);
        proof {
            assert(sub1.drop_last() =~= sub);
            assert(sub1.last() == slots@[i as int]);
        }
        if (cur as i128) + (v as i128) < i64::MIN as i128 || (cur as i128) + (v as i128) > i64::MAX as i128 {
            proof {
                assert(!(i64::MIN <= bundle_diff(*t, sub1, tx.address) <= i64::MAX));
                assert(!bundle_fits(*t, slots@));
            }
            return None;
        }
        let ghost m0 = m@;
        add_to_key(&mut m, tx.address, v);
        proof {
            assert forall|a: TernaryHash| #[trigger] has_key(m@, a) <==> bundle_touches(*t, sub1, a) by {
                if bundle_touches(*t, sub, a) {
                    let k = choose|k: int| 0 <= k < sub.len() && t.e((#[trigger] sub[k]) as int).tx.address == a;
                    assert(sub1[k] == sub[k]);
                }
                if bundle_touches(*t, sub1, a) {
                    let k = choose|k: int| 0 <= k < sub1.len() && t.e((#[trigger] sub1[k]) as int).tx.address == a;
                    if k < sub.len() {
                        assert(sub1[k] == sub[k]);
                        assert(bundle_touches(*t, sub, a));
                    }
                }
                if a == tx.address {
                    assert(t.e(sub1[i as int] as int).tx.address == a);
                }
                assert(has_key(m0, a) <==> bundle_touches(*t, sub, a));
            }
            assert forall|k: int, a: TernaryHash|
                0 <= k <= i + 1 implies i64::MIN <= #[trigger] bundle_diff(*t, slots@.subrange(0, k), a) <= i64::MAX by {
                if k == i + 1 {
                    lemma_val_range(m@, a);
                    assert(val_of(m@, a) == val_of(m0, a) + if a == tx.address { v as int } else { 0 });
                }
            }
        }
        assert(IOTA_SUPPLY * (i + 1) <= i128::MAX) by (nonlinear_arith)
            requires i + 1 <= usize::MAX + 1, usize::MAX <= u64::MAX;
        assert(-IOTA_SUPPLY * (i + 1) >= i128::MIN) by (nonlinear_arith)
            requires i + 1 <= usize::MAX + 1, usize::MAX <= u64::MAX;
        assert(-IOTA_SUPPLY * (i + 1) <= total + v <= IOTA_SUPPLY * (i + 1)) by (nonlinear_arith)
            requires -IOTA_SUPPLY * i <= total <= IOTA_SUPPLY * i, -IOTA_SUPPLY <= v <= IOTA_SUPPLY;
        total = total + v as i128;
        i += 1;
    }
    proof {
        assert(slots@.subrange(0, i as int) =~= slots@);
    }
    if total != 0 {
        return None;
    }
    Some(m)
}

/// What a confirmation walk produced.
pub struct WhiteFlagMetadata {
    pub index: u32,
    pub timestamp: u64,
    pub num_tails_referenced: u64,
    pub num_tails_zero_value: u64,
    pub num_tails_conflicting: u64,
    /// Tails whose bundles changed the ledger, in the order they were applied.
    pub tails_included: Vec<TernaryHash>,
}

impl WhiteFlagMetadata {
    pub fn new(index: u32, timestamp: u64) -> (r: WhiteFlagMetadata)
        ensures
            r.index == index,
            r.timestamp == timestamp,
            r.num_tails_referenced == 0,
            r.num_tails_zero_value == 0,
            r.num_tails_conflicting == 0,
            r.tails_included@.len() == 0,
    {
        WhiteFlagMetadata {
            index,
            timestamp,
            num_tails_referenced: 0,
            num_tails_zero_value: 0,
            num_tails_conflicting: 0,
            tails_included: Vec::new(),
        }
    }
}

/// `h` is among the hashes of `v`.
pub fn hash_in(v: &Vec<TernaryHash>, h: &TernaryHash) -> (r: bool)
    ensures
        r == v@.contains(*h),
{
    let mut i: usize = 0;
    while i < v.len()
        invariant
            i <= v@.len(),
            forall|j: int| 0 <= j < i ==> v@[j] != *h,
        decreases v@.len() - i,
    {
        if hash_eq(&v[i], h) {
            assert(v@[i as int] == *h);
            return true;
        }
        i += 1;
    }
    false
}

fn slot_in(v: &Vec<usize>, x: usize) -> (r: bool)
    ensures
        r == v@.contains(x),
{
    let mut i: usize = 0;
    while i < v.len()
        invariant
            i <= v@.len(),
            forall|j: int| 0 <= j < i ==> v@[j] != x,
        decreases v@.len() - i,
    {
        if v[i] == x {
            assert(v@[i as int] == x);
            return true;
        }
        i += 1;
    }
    false
}

/// Nothing is left to do for a parent: it is a solid-entry-point, or a
/// transaction confirmed earlier or visited by this walk.
pub open spec fn done(t: Tangle, vis: Seq<usize>, h: TernaryHash, s: Option<usize>) -> bool {
    t.is_sep(h) || (s matches Some(x) && (t.e(x as int).meta.milestone_index is Some || vis.contains(x)))
}

fn is_done(t: &Tangle, vis: &Vec<usize>, h: &TernaryHash, s: Option<usize>) -> (r: bool)
    requires
        s matches Some(x) ==> x < t.len(),
    ensures
        r == done(*t, vis@, *h, s),
{
    if t.contains_solid_entry_point(h) {
        return true;
    }
    match s {
        Some(x) => t.entries[x].meta.milestone_index.is_some() || slot_in(vis, x),
        None => false,
    }
}

/// The parents a bundle hangs on: the branch of each of its transactions
/// and the trunk of its head.
pub open spec fn approvees_done(t: Tangle, vis: Seq<usize>, v: Seq<usize>) -> bool {
    &&& forall|k: int| 0 <= k < v.len() ==> done(t, vis, t.e((#[trigger] v[k]) as int).tx.branch, t.e(v[k] as int).branch_slot)
    &&& done(t, vis, t.e(v.last() as int).tx.trunk, t.e(v.last() as int).trunk_slot)
}

fn mutates(m: &Vec<(TernaryHash, i64)>) -> (r: bool)
    ensures
        r == exists|k: int| 0 <= k < m@.len() && (#[trigger] m@[k]).1 != 0,
{
    let mut k: usize = 0;
    while k < m.len()
        invariant
            k <= m@.len(),
            forall|j: int| 0 <= j < k ==> (#[trigger] m@[j]).1 == 0,
        decreases m@.len() - k,
    {
        if m[k].1 != 0 {
            assert(m@[k as int].1 != 0);
            return true;
        }
        k += 1;
    }
    false
}

/// Slot `x` is to be confirmed.
pub open spec fn marked(marks: Seq<(usize, bool)>, x: usize) -> bool {
    exists|q: int| 0 <= q < marks.len() && (#[trigger] marks[q]).0 == x
}

/// A parent is taken care of: a solid-entry-point, confirmed already, or to be confirmed.
pub open spec fn covered(t: Tangle, marks: Seq<(usize, bool)>, h: TernaryHash, s: Option<usize>) -> bool {
    t.is_sep(h) || (s matches Some(x) && (t.e(x as int).meta.milestone_index is Some || marked(marks, x)))
}

/// Every slot to be confirmed has both parents taken care of.
pub open spec fn marks_closed(t: Tangle, marks: Seq<(usize, bool)>) -> bool {
    forall|q: int|
        0 <= q < marks.len() ==> {
            let e = t.e((#[trigger] marks[q]).0 as int);
            covered(t, marks, e.tx.trunk, e.trunk_slot) && covered(t, marks, e.tx.branch, e.branch_slot)
        }
}

/// Each transaction of a bundle but the head has the next one as its trunk.
proof fn lemma_chain_links(t: Tangle, s: int, k: int, last: u64, bundle: TernaryHash)
    requires
        0 <= k <= last,
        0 <= s <= usize::MAX,
    ensures
        chain_from(t, s, k, last, bundle) matches Some(r) ==> forall|q: int|
            0 <= q < r.len() - 1 ==> t.e((#[trigger] r[q]) as int).trunk_slot == Some(r[q + 1]),
    decreases last - k,
{
    lemma_chain_len(t, s, k, last, bundle);
    if k < last {
        if let Some(n) = t.e(s).trunk_slot {
            lemma_chain_links(t, n as int, k + 1, last, bundle);
            lemma_chain_len(t, n as int, k + 1, last, bundle);
            if let Some(r) = chain_from(t, s, k, last, bundle) {
                let rest = chain_from(t, n as int, k + 1, last, bundle)->Some_0;
                assert(r == seq![s as usize] + rest);
                assert forall|q: int| 0 <= q < r.len() - 1 implies t.e((#[trigger] r[q]) as int).trunk_slot == Some(r[q + 1]) by {
                    if q > 0 {
                        assert(r[q] == rest[q - 1]);
                        assert(r[q + 1] == rest[q]);
                        assert(t.e(rest[q - 1] as int).trunk_slot == Some(rest[q - 1 + 1]));
                    } else {
                        assert(r[1] == rest[0]);
                    }
                }
            }
        }
    }
}

/// Marking a whole bundle whose parents are done keeps the marks closed.
proof fn lemma_mark_bundle(t: Tangle, vis: Seq<usize>, m0: Seq<(usize, bool)>, m1: Seq<(usize, bool)>, v: Seq<usize>)
    requires
        t.wf(),
        v.len() >= 1,
        forall|k: int| 0 <= k < v.len() ==> #[trigger] v[k] < t.len(),
        forall|q: int| 0 <= q < v.len() - 1 ==> t.e((#[trigger] v[q]) as int).trunk_slot == Some(v[q + 1]),
        approvees_done(t, vis, v),
        marks_closed(t, m0),
        forall|x: usize| vis.contains(x) ==> #[trigger] marked(m0, x),
        m1.len() == m0.len() + v.len(),
        forall|q: int| 0 <= q < m0.len() ==> #[trigger] m1[q] == m0[q],
        forall|k: int| 0 <= k < v.len() ==> (#[trigger] m1[m0.len() + k]).0 == v[k],
    ensures
        marks_closed(t, m1),
        forall|x: usize| marked(m0, x) ==> #[trigger] marked(m1, x),
        forall|k: int| 0 <= k < v.len() ==> #[trigger] marked(m1, v[k]),
{
    assert forall|x: usize| marked(m0, x) implies #[trigger] marked(m1, x) by {
        let q = choose|q: int| 0 <= q < m0.len() && (#[trigger] m0[q]).0 == x;
        assert(m1[q].0 == x);
    }
    assert forall|k: int| 0 <= k < v.len() implies #[trigger] marked(m1, v[k]) by {
        assert(m1[m0.len() + k].0 == v[k]);
    }
    assert forall|h: TernaryHash, s: Option<usize>| done(t, vis, h, s) implies #[trigger] covered(t, m1, h, s) by {
        if let Some(x) = s {
            if vis.contains(x) {
                assert(marked(m0, x));
            }
        }
    }
    assert forall|h: TernaryHash, s: Option<usize>| covered(t, m0, h, s) implies #[trigger] covered(t, m1, h, s) by {
        if let Some(x) = s {
            if marked(m0, x) {
                assert(marked(m1, x));
            }
        }
    }
    assert forall|q: int| 0 <= q < m1.len() implies {
        let e = t.e((#[trigger] m1[q]).0 as int);
        covered(t, m1, e.tx.trunk, e.trunk_slot) && covered(t, m1, e.tx.branch, e.branch_slot)
    } by {
        if q < m0.len() {
            assert(m1[q] == m0[q]);
            let e = t.e(m0[q].0 as int);
            assert(covered(t, m0, e.tx.trunk, e.trunk_slot) && covered(t, m0, e.tx.branch, e.branch_slot));
        } else {
            let k = q - m0.len();
            assert(m1[m0.len() + k].0 == v[k]);
            let e = t.e(v[k] as int);
            assert(done(t, vis, e.tx.branch, e.branch_slot));
            if k < v.len() - 1 {
                assert(e.trunk_slot == Some(v[k + 1]));
                assert(marked(m1, v[k + 1]));
            } else {
                assert(v.last() == v[k]);
                assert(done(t, vis, e.tx.trunk, e.trunk_slot));
            }
        }
    }
}

/// The state of a confirmation walk: the tails whose bundles changed the
/// ledger (in order), the tails visited, the slots to confirm with their
/// conflicting flags, and the counts of tails referenced, zero-value and
/// conflicting.
pub struct WalkView {
    pub applied: Seq<usize>,
    pub visited: Seq<usize>,
    pub marks: Seq<(usize, bool)>,
    pub referenced: u64,
    pub zero_value: u64,
    pub conflicting: u64,
}

pub open spec fn empty_walk() -> WalkView {
    WalkView {
        applied: Seq::empty(),
        visited: Seq::empty(),
        marks: Seq::empty(),
        referenced: 0,
        zero_value: 0,
        conflicting: 0,
    }
}

/// A counter after one more count, wrapping at the top.
pub open spec fn inc(x: u64) -> u64 {
    if x < u64::MAX {
        (x + 1) as u64
    } else {
        0
    }
}

fn inc_exec(x: u64) -> (r: u64)
    ensures
        r == inc(x),
{
    if x < u64::MAX {
        x + 1
    } else {
        0
    }
}

/// What the bundles of the tails `applied` move at address `a`, together.
pub open spec fn applied_diff(t: Tangle, applied: Seq<usize>, a: TernaryHash) -> int
    decreases applied.len(),
{
    if applied.len() == 0 {
        0
    } else {
        applied_diff(t, applied.drop_last(), a) + bundle_diff(t, bundle_of(t, applied.last() as int)->Some_0, a)
    }
}

/// The parents a bundle hangs on, in the order the walk takes them: the
/// head's branch, the branch of each transaction from the tail on, then
/// the head's trunk.
pub open spec fn approvees(t: Tangle, v: Seq<usize>) -> Seq<(TernaryHash, Option<usize>)> {
    let head = t.e(v.last() as int);
    seq![(head.tx.branch, head.branch_slot)] + Seq::new(
        v.len(),
        |k: int| (t.e(v[k] as int).tx.branch, t.e(v[k] as int).branch_slot),
    ) + seq![(head.tx.trunk, head.trunk_slot)]
}

/// The bundle moves a nonzero amount at some address.
pub open spec fn bundle_mutates(t: Tangle, v: Seq<usize>) -> bool {
    exists|k: int| 0 <= k < v.len() && bundle_diff(t, v, t.e((#[trigger] v[k]) as int).tx.address) != 0
}

/// Applying the bundle after the bundles `applied` would take a balance
/// out of [0, IOTA_SUPPLY].
pub open spec fn bundle_conflicts(t: Tangle, base: LedgerState, applied: Seq<usize>, v: Seq<usize>) -> bool {
    exists|k: int|
        0 <= k < v.len() && {
            let a = t.e((#[trigger] v[k]) as int).tx.address;
            !(0 <= base.balance(a) + applied_diff(t, applied, a) + bundle_diff(t, v, a) <= IOTA_SUPPLY)
        }
}

/// The walk after taking the bundle `v` of tail `s`: a mutating bundle
/// without conflict is applied; every transaction of the bundle is marked,
/// flagged conflicting where the bundle conflicts.
pub open spec fn after_bundle(t: Tangle, base: LedgerState, w: WalkView, s: usize, v: Seq<usize>) -> WalkView {
    let mutates = bundle_mutates(t, v);
    let c = mutates && bundle_conflicts(t, base, w.applied, v);
    WalkView {
        applied: if mutates && !c { w.applied.push(s) } else { w.applied },
        visited: w.visited.push(s),
        marks: w.marks + Seq::new(v.len(), |k: int| (v[k], c)),
        referenced: inc(w.referenced),
        zero_value: if mutates { w.zero_value } else { inc(w.zero_value) },
        conflicting: if c { inc(w.conflicting) } else { w.conflicting },
    }
}

pub open spec fn approvee_count(t: Tangle, s: usize) -> nat {
    match bundle_of(t, s as int) {
        Some(v) => (v.len() + 2) as nat,
        None => 0,
    }
}

/// The walk from the tail in slot `s`: it must be a tail whose bundle can be
/// put together; the parents of the bundle are walked first, in the order of
/// `approvees`, each one not yet done; then the bundle must be valid, and is
/// taken.
pub open spec fn visit(t: Tangle, base: LedgerState, w: WalkView, s: usize) -> Result<WalkView, Error>
    decreases t.e(s as int).rank, approvee_count(t, s) + 1,
{
    if !t.e(s as int).meta.tail {
        Err(Error::NotATail)
    } else {
        match bundle_of(t, s as int) {
            None => Err(Error::MissingBundle),
            Some(v) => match visit_approvees(t, base, w, s, v, 0) {
                Err(e) => Err(e),
                Ok(w2) => if bundle_valid(t, v) && bundle_fits(t, v) {
                    Ok(after_bundle(t, base, w2, s, v))
                } else {
                    Err(Error::InvalidBundle)
                },
            },
        }
    }
}

/// The walk over the parents of the bundle `v` of tail `s`, from the `k`-th
/// on. A parent not done must be in the tangle, solid and earlier in the
/// solid order than `s`; else the ancestry is incomplete.
pub open spec fn visit_approvees(t: Tangle, base: LedgerState, w: WalkView, s: usize, v: Seq<usize>, k: int) -> Result<
    WalkView,
    Error,
>
    decreases t.e(s as int).rank, approvees(t, v).len() - k,
{
    let ap = approvees(t, v);
    if k < 0 || k >= ap.len() {
        Ok(w)
    } else if done(t, w.visited, ap[k].0, ap[k].1) {
        visit_approvees(t, base, w, s, v, k + 1)
    } else {
        match ap[k].1 {
            None => Err(Error::MissingBundle),
            Some(y) => if !(t.e(y as int).meta.solid && t.e(y as int).rank < t.e(s as int).rank) {
                Err(Error::MissingBundle)
            } else {
                match visit(t, base, w, y) {
                    Err(e) => Err(e),
                    Ok(w2) => visit_approvees(t, base, w2, s, v, k + 1),
                }
            },
        }
    }
}

/// The unconfirmed past cone of the tail in slot `s` is complete: `s` is a
/// tail whose bundle can be put together, is valid and fits, and every
/// parent of the bundle is a solid-entry-point, a confirmed transaction, or
/// a solid transaction earlier in the solid order whose cone is complete.
pub open spec fn cone_complete(t: Tangle, s: usize) -> bool
    decreases t.e(s as int).rank, approvee_count(t, s) + 1,
{
    &&& t.e(s as int).meta.tail
    &&& bundle_of(t, s as int) matches Some(v) && bundle_valid(t, v) && bundle_fits(t, v) && approvees_complete(t, s, v, 0)
}

pub open spec fn approvees_complete(t: Tangle, s: usize, v: Seq<usize>, k: int) -> bool
    decreases t.e(s as int).rank, approvees(t, v).len() - k,
{
    let ap = approvees(t, v);
    if k < 0 || k >= ap.len() {
        true
    } else {
        &&& (t.is_sep(ap[k].0) || match ap[k].1 {
            Some(y) => t.e(y as int).meta.milestone_index is Some || (t.e(y as int).meta.solid && t.e(y as int).rank
                < t.e(s as int).rank && cone_complete(t, y)),
            None => false,
        })
        &&& approvees_complete(t, s, v, k + 1)
    }
}

/// A walk from a tail whose cone is complete succeeds, whatever it has
/// visited before.
pub proof fn lemma_complete_cone_walks(t: Tangle, base: LedgerState, w: WalkView, s: usize)
    requires
        cone_complete(t, s),
    ensures
        visit(t, base, w, s) is Ok,
    decreases t.e(s as int).rank, approvee_count(t, s) + 1,
{
    let v = bundle_of(t, s as int)->Some_0;
    lemma_complete_approvees_walk(t, base, w, s, v, 0);
}

pub proof fn lemma_complete_approvees_walk(t: Tangle, base: LedgerState, w: WalkView, s: usize, v: Seq<usize>, k: int)
    requires
        bundle_of(t, s as int) == Some(v),
        approvees_complete(t, s, v, k),
        0 <= k,
    ensures
        visit_approvees(t, base, w, s, v, k) is Ok,
    decreases t.e(s as int).rank, approvees(t, v).len() - k,
{
    let ap = approvees(t, v);
    if k < ap.len() {
        if done(t, w.visited, ap[k].0, ap[k].1) {
            lemma_complete_approvees_walk(t, base, w, s, v, k + 1);
        } else {
            let y = ap[k].1->Some_0;
            lemma_complete_cone_walks(t, base, w, y);
            let w2 = visit(t, base, w, y)->Ok_0;
            lemma_complete_approvees_walk(t, base, w2, s, v, k + 1);
        }
    }
}

/// The walk that confirms milestone `index` succeeds when its tail is known
/// and solid (or a solid-entry-point, or confirmed already) and its cone is
/// complete.
pub proof fn lemma_milestone_walk_succeeds(t: Tangle, base: LedgerState, index: u32, s: int)
    requires
        t.wf(),
        0 <= s < t.len(),
        t.milestone_of(index) == Some(t.e(s).hash),
        t.e(s).meta.solid,
        t.e(s).meta.milestone_index is None ==> cone_complete(t, s as usize),
    ensures
        milestone_walk(t, base, index) is Ok,
{
    let h = t.e(s).hash;
    assert(t.contains(h));
    let j = choose|j: int| 0 <= j < t.len() && (#[trigger] t.e(j)).hash == h;
    if j != s {
        assert(t.e(j).hash != t.e(s).hash);
    }
    assert(slot_of(t, h) == Some(s));
    if !t.is_sep(h) && t.e(s).meta.milestone_index is None {
        lemma_complete_cone_walks(t, base, empty_walk(), s as usize);
    }
}

/// The slot holding hash `h`, if any.
pub open spec fn slot_of(t: Tangle, h: TernaryHash) -> Option<int> {
    if t.contains(h) {
        Some(choose|j: int| 0 <= j < t.len() && (#[trigger] t.e(j)).hash == h)
    } else {
        None
    }
}

/// The walk that confirms milestone `index`: nothing to do where its tail is
/// a solid-entry-point or confirmed already; its tail must be known and
/// solid; otherwise the walk from its tail.
pub open spec fn milestone_walk(t: Tangle, base: LedgerState, index: u32) -> Result<WalkView, Error> {
    match t.milestone_of(index) {
        None => Err(Error::MissingBundle),
        Some(h) => match slot_of(t, h) {
            None => if t.is_sep(h) {
                Ok(empty_walk())
            } else {
                Err(Error::MissingBundle)
            },
            Some(s) => if t.is_sep(h) || t.e(s).meta.milestone_index is Some {
                Ok(empty_walk())
            } else if !t.e(s).meta.solid {
                Err(Error::MissingBundle)
            } else {
                visit(t, base, empty_walk(), s as usize)
            },
        },
    }
}

/// The metadata reports the walk: its tails in order, and its counts.
pub open spec fn reports(m: WhiteFlagMetadata, t: Tangle, w: WalkView) -> bool {
    &&& m.tails_included@ == w.applied.map_values(|x: usize| t.e(x as int).hash)
    &&& m.num_tails_referenced == w.referenced
    &&& m.num_tails_zero_value == w.zero_value
    &&& m.num_tails_conflicting == w.conflicting
}

struct WalkState {
    scratch: LedgerState,
    visited: Vec<usize>,
    marks: Vec<(usize, bool)>,
    meta: WhiteFlagMetadata,
    applied: Ghost<Seq<usize>>,
}

impl WalkState {
    spec fn walk_view(&self) -> WalkView {
        WalkView {
            applied: self.applied@,
            visited: self.visited@,
            marks: self.marks@,
            referenced: self.meta.num_tails_referenced,
            zero_value: self.meta.num_tails_zero_value,
            conflicting: self.meta.num_tails_conflicting,
        }
    }

    spec fn inv(&self, t: Tangle, base: LedgerState) -> bool {
        &&& self.scratch.wf()
        &&& forall|a: TernaryHash| #[trigger] self.scratch.balance(a) == base.balance(a) + applied_diff(t, self.applied@, a)
        &&& self.meta.tails_included@ == self.applied@.map_values(|x: usize| t.e(x as int).hash)
        &&& forall|k: int| 0 <= k < self.marks@.len() ==> (#[trigger] self.marks@[k]).0 < t.len()
        &&& marks_closed(t, self.marks@)
        &&& forall|x: usize| self.visited@.contains(x) ==> #[trigger] marked(self.marks@, x)
    }
}

fn approvee_list(t: &Tangle, v: &Vec<usize>) -> (r: Vec<(TernaryHash, Option<usize>)>)
    requires
        t.wf(),
        v@.len() >= 1,
        forall|k: int| 0 <= k < v@.len() ==> #[trigger] v@[k] < t.len(),
    ensures
        r@ == approvees(*t, v@),
        forall|k: int| 0 <= k < r@.len() ==> t.slot_matches((#[trigger] r@[k]).0, r@[k].1),
{
    let head = t.entries[v[v.len() - 1]];
    proof {
        let hs = v@.last() as int;
        assert(v@.last() == v@[v@.len() - 1]);
        assert(t.slot_matches(t.e(hs).tx.trunk, t.e(hs).trunk_slot));
        assert(t.slot_matches(t.e(hs).tx.branch, t.e(hs).branch_slot));
    }
    let mut r: Vec<(TernaryHash, Option<usize>)> = Vec::new();
    r.push((head.tx.branch, head.branch_slot));
    let mut k: usize = 0;
    while k < v.len()
        invariant
            t.wf(),
            k <= v@.len(),
            forall|q: int| 0 <= q < v@.len() ==> #[trigger] v@[q] < t.len(),
            r@ == seq![(head.tx.branch, head.branch_slot)] + Seq::new(
                k as nat,
                |q: int| (t.e(v@[q] as int).tx.branch, t.e(v@[q] as int).branch_slot),
            ),
            forall|q: int| 0 <= q < r@.len() ==> t.slot_matches((#[trigger] r@[q]).0, r@[q].1),
            head == t.e(v@.last() as int),
            t.slot_matches(head.tx.trunk, head.trunk_slot),
        decreases v@.len() - k,
    {
        let m = t.entries[v[k]];
        proof {
            assert(t.slot_matches(t.e(v@[k as int] as int).tx.branch, t.e(v@[k as int] as int).branch_slot));
        }
        r.push((m.tx.branch, m.branch_slot));
        k += 1;
        assert(r@ =~= seq![(head.tx.branch, head.branch_slot)] + Seq::new(
            k as nat,
            |q: int| (t.e(v@[q] as int).tx.branch, t.e(v@[q] as int).branch_slot),
        ));
    }
    r.push((head.tx.trunk, head.trunk_slot));
    assert(r@ =~= approvees(*t, v@));
    r
}

proof fn lemma_conflicts_iff(t: Tangle, base: LedgerState, l: LedgerState, applied: Seq<usize>, v: Seq<usize>, m: Seq<(TernaryHash, i64)>)
    requires
        keys_unique(m),
        forall|a: TernaryHash| #[trigger] val_of(m, a) == bundle_diff(t, v, a),
        forall|a: TernaryHash| #[trigger] has_key(m, a) <==> bundle_touches(t, v, a),
        forall|a: TernaryHash| #[trigger] l.balance(a) == base.balance(a) + applied_diff(t, applied, a),
    ensures
        conflicts(l, m) <==> bundle_conflicts(t, base, applied, v),
        (exists|k: int| 0 <= k < m.len() && (#[trigger] m[k]).1 != 0) <==> bundle_mutates(t, v),
{
    if conflicts(l, m) {
        let k = choose|k: int| 0 <= k < m.len() && !(0 <= l.balance((#[trigger] m[k]).0) + m[k].1 <= IOTA_SUPPLY);
        let a = m[k].0;
        assert(has_key(m, a));
        let j = choose|j: int| 0 <= j < v.len() && t.e((#[trigger] v[j]) as int).tx.address == a;
        lemma_val_at(m, k);
        assert(l.balance(a) == base.balance(a) + applied_diff(t, applied, a));
        assert(bundle_conflicts(t, base, applied, v)) by {
            assert(t.e(v[j] as int).tx.address == a);
        }
    }
    if bundle_conflicts(t, base, applied, v) {
        let j = choose|j: int|
            0 <= j < v.len() && {
                let a = t.e((#[trigger] v[j]) as int).tx.address;
                !(0 <= base.balance(a) + applied_diff(t, applied, a) + bundle_diff(t, v, a) <= IOTA_SUPPLY)
            };
        let a = t.e(v[j] as int).tx.address;
        assert(bundle_touches(t, v, a));
        assert(has_key(m, a));
        let k = choose|k: int| 0 <= k < m.len() && (#[trigger] m[k]).0 == a;
        lemma_val_at(m, k);
        assert(l.balance(a) == base.balance(a) + applied_diff(t, applied, a));
        assert(!(0 <= l.balance(m[k].0) + m[k].1 <= IOTA_SUPPLY));
    }
    if exists|k: int| 0 <= k < m.len() && (#[trigger] m[k]).1 != 0 {
        let k = choose|k: int| 0 <= k < m.len() && (#[trigger] m[k]).1 != 0;
        let a = m[k].0;
        assert(has_key(m, a));
        let j = choose|j: int| 0 <= j < v.len() && t.e((#[trigger] v[j]) as int).tx.address == a;
        lemma_val_at(m, k);
        assert(bundle_diff(t, v, t.e(v[j] as int).tx.address) != 0);
    }
    if bundle_mutates(t, v) {
        let j = choose|j: int| 0 <= j < v.len() && bundle_diff(t, v, t.e((#[trigger] v[j]) as int).tx.address) != 0;
        let a = t.e(v[j] as int).tx.address;
        assert(bundle_touches(t, v, a));
        assert(has_key(m, a));
        let k = choose|k: int| 0 <= k < m.len() && (#[trigger] m[k]).0 == a;
        lemma_val_at(m, k);
        assert(m[k].1 != 0);
    }
}

/// Walks from the tail in slot `s` as `visit` says, on the state `st`.
fn visit_exec(t: &Tangle, base: Ghost<LedgerState>, st: &mut WalkState, s: usize) -> (r: Result<(), Error>)
    requires
        t.wf(),
        s < t.len(),
        old(st).inv(*t, base@),
    ensures
        match visit(*t, base@, old(st).walk_view(), s) {
            Ok(w) => r is Ok && final(st).walk_view() == w,
            Err(e) => r == Err::<(), Error>(e),
        },
        r is Ok ==> {
            &&& final(st).inv(*t, base@)
            &&& final(st).visited@.contains(s)
            &&& forall|x: usize| old(st).visited@.contains(x) ==> #[trigger] final(st).visited@.contains(x)
            &&& final(st).meta.index == old(st).meta.index
            &&& final(st).meta.timestamp == old(st).meta.timestamp
        },
    decreases t.e(s as int).rank, approvee_count(*t, s) + 1,
{
    let ghost w0 = st.walk_view();
    let e = t.entries[s];
    if !e.meta.tail {
        return Err(Error::NotATail);
    }
    let v = match load_bundle(t, s) {
        Some(v) => v,
        None => {
            return Err(Error::MissingBundle);
        },
    };
    let ap = approvee_list(t, &v);
    let ghost vis0 = st.visited@;
    match walk_approvees(t, base, st, s, &v, &ap) {
        Err(er) => {
            return Err(er);
        },
        Ok(()) => {},
    }
    let ghost w2 = st.walk_view();
    let ghost vis1 = st.visited@;
    let r = take_bundle(t, base, st, s, &v, &ap);
    proof {
        if r is Ok {
            assert forall|x: usize| vis0.contains(x) implies #[trigger] st.visited@.contains(x) by {
                assert(vis1.contains(x));
                let j = choose|j: int| 0 <= j < vis1.len() && vis1[j] == x;
                assert(st.visited@[j] == x);
            }
            assert(st.visited@[vis1.len() as int] == s);
        }
    }
    r
}

/// Walks the parents of the bundle `v` of tail `s` as `visit_approvees` says.
fn walk_approvees(
    t: &Tangle,
    base: Ghost<LedgerState>,
    st: &mut WalkState,
    s: usize,
    v: &Vec<usize>,
    ap: &Vec<(TernaryHash, Option<usize>)>,
) -> (r: Result<(), Error>)
    requires
        t.wf(),
        s < t.len(),
        old(st).inv(*t, base@),
        bundle_of(*t, s as int) == Some(v@),
        v@.len() >= 1,
        forall|q: int| 0 <= q < v@.len() ==> #[trigger] v@[q] < t.len(),
        ap@ == approvees(*t, v@),
        forall|q: int| 0 <= q < ap@.len() ==> t.slot_matches((#[trigger] ap@[q]).0, ap@[q].1),
    ensures
        match visit_approvees(*t, base@, old(st).walk_view(), s, v@, 0) {
            Ok(w) => r is Ok && final(st).walk_view() == w,
            Err(e) => r == Err::<(), Error>(e),
        },
        r is Ok ==> {
            &&& final(st).inv(*t, base@)
            &&& forall|x: usize| old(st).visited@.contains(x) ==> #[trigger] final(st).visited@.contains(x)
            &&& forall|q: int| 0 <= q < ap@.len() ==> done(*t, final(st).visited@, (#[trigger] ap@[q]).0, ap@[q].1)
            &&& final(st).meta.index == old(st).meta.index
            &&& final(st).meta.timestamp == old(st).meta.timestamp
        },
    decreases t.e(s as int).rank, approvee_count(*t, s),
{
    let ghost w0 = st.walk_view();
    let srank = t.entries[s].rank;
    let mut k: usize = 0;
    while k < ap.len()
        invariant
            t.wf(),
            s < t.len(),
            srank == t.e(s as int).rank,
            bundle_of(*t, s as int) == Some(v@),
            ap@ == approvees(*t, v@),
            forall|q: int| 0 <= q < ap@.len() ==> t.slot_matches((#[trigger] ap@[q]).0, ap@[q].1),
            k <= ap@.len(),
            st.inv(*t, base@),
            visit_approvees(*t, base@, w0, s, v@, 0) == visit_approvees(*t, base@, st.walk_view(), s, v@, k as int),
            w0 == old(st).walk_view(),
            forall|x: usize| w0.visited.contains(x) ==> #[trigger] st.visited@.contains(x),
            forall|q: int| 0 <= q < k ==> done(*t, st.visited@, (#[trigger] ap@[q]).0, ap@[q].1),
            st.meta.index == old(st).meta.index,
            st.meta.timestamp == old(st).meta.timestamp,
        decreases ap@.len() - k,
    {
        let (h, x) = ap[k];
        let ghost wk = st.walk_view();
        proof {
            assert(ap@[k as int] == (h, x));
            assert(approvees(*t, v@)[k as int] == (h, x));
        }
        if !is_done(t, &st.visited, &h, x) {
            match x {
                None => {
                    proof {
                        assert(visit_approvees(*t, base@, wk, s, v@, k as int) == Err::<WalkView, Error>(Error::MissingBundle));
                    }
                    return Err(Error::MissingBundle);
                },
                Some(y) => {
                    let pe = t.entries[y];
                    if !(pe.meta.solid && pe.rank < srank) {
                        proof {
                            assert(pe == t.e(y as int));
                            assert(visit_approvees(*t, base@, wk, s, v@, k as int) == Err::<WalkView, Error>(Error::MissingBundle));
                        }
                        return Err(Error::MissingBundle);
                    }
                    let ghost vis_k = st.visited@;
                    match visit_exec(t, base, st, y) {
                        Err(er) => {
                            return Err(er);
                        },
                        Ok(()) => {
                            proof {
                                assert forall|q: int| 0 <= q < k + 1 implies done(*t, st.visited@, (#[trigger] ap@[q]).0, ap@[q].1) by {
                                    if q < k {
                                        assert(done(*t, vis_k, ap@[q].0, ap@[q].1));
                                        if let Some(z) = ap@[q].1 {
                                            if vis_k.contains(z) {
                                                assert(st.visited@.contains(z));
                                            }
                                        }
                                    }
                                }
                            }
                        },
                    }
                },
            }
        }
        k += 1;
    }
    Ok(())
}

/// Takes the bundle `v` of tail `s` once its parents are done: checks it,
/// applies it to the ledger copy unless it conflicts, and marks it.
fn take_bundle(
    t: &Tangle,
    base: Ghost<LedgerState>,
    st: &mut WalkState,
    s: usize,
    v: &Vec<usize>,
    ap: &Vec<(TernaryHash, Option<usize>)>,
) -> (r: Result<(), Error>)
    requires
        t.wf(),
        s < t.len(),
        old(st).inv(*t, base@),
        bundle_of(*t, s as int) == Some(v@),
        v@.len() >= 1,
        forall|q: int| 0 <= q < v@.len() ==> #[trigger] v@[q] < t.len(),
        ap@ == approvees(*t, v@),
        forall|q: int| 0 <= q < ap@.len() ==> done(*t, old(st).visited@, (#[trigger] ap@[q]).0, ap@[q].1),
    ensures
        bundle_valid(*t, v@) && bundle_fits(*t, v@) ==> r is Ok && final(st).walk_view() == after_bundle(
            *t,
            base@,
            old(st).walk_view(),
            s,
            v@,
        ),
        !(bundle_valid(*t, v@) && bundle_fits(*t, v@)) ==> r == Err::<(), Error>(Error::InvalidBundle),
        r is Ok ==> {
            &&& final(st).inv(*t, base@)
            &&& final(st).visited@ == old(st).visited@.push(s)
            &&& final(st).meta.index == old(st).meta.index
            &&& final(st).meta.timestamp == old(st).meta.timestamp
        },
{
    let e = t.entries[s];
    let m = match ledger_mutations(t, v) {
        Some(m) => m,
        None => {
            return Err(Error::InvalidBundle);
        },
    };
    let ghost s0 = st.scratch;
    let ghost w2 = st.walk_view();
    proof {
        lemma_conflicts_iff(*t, base@, s0, st.applied@, v@, m@);
    }
    let mutating = mutates(&m);
    let mut conflicting = false;
    if !mutating {
        st.meta.num_tails_zero_value = inc_exec(st.meta.num_tails_zero_value);
    } else {
        conflicting = apply_mutations(&mut st.scratch, &m);
        if conflicting {
            st.meta.num_tails_conflicting = inc_exec(st.meta.num_tails_conflicting);
        } else {
            st.meta.tails_included.push(e.hash);
            let ghost old_applied = st.applied@;
            st.applied = Ghost(st.applied@.push(s));
            proof {
                assert(st.applied@.drop_last() =~= old_applied);
                assert forall|a: TernaryHash| #[trigger] st.scratch.balance(a) == base@.balance(a) + applied_diff(*t, st.applied@, a) by {
                    assert(s0.balance(a) == base@.balance(a) + applied_diff(*t, old_applied, a));
                }
                assert(st.meta.tails_included@ =~= st.applied@.map_values(|x: usize| t.e(x as int).hash));
            }
        }
    }
    st.meta.num_tails_referenced = inc_exec(st.meta.num_tails_referenced);
    let ghost m0 = st.marks@;
    let ghost meta1 = st.meta;
    let ghost scratch1 = st.scratch;
    let ghost applied1 = st.applied@;
    assert(st.visited@ == old(st).visited@);
    let mut q: usize = 0;
    while q < v.len()
        invariant
            st.meta == meta1,
            st.scratch == scratch1,
            st.applied@ == applied1,
            st.visited@ == old(st).visited@,
            q <= v@.len(),
            forall|j: int| 0 <= j < v@.len() ==> #[trigger] v@[j] < t.len(),
            forall|j: int| 0 <= j < m0.len() ==> (#[trigger] m0[j]).0 < t.len(),
            st.marks@ == m0 + Seq::new(q as nat, |j: int| (v@[j], conflicting)),
        decreases v@.len() - q,
    {
        st.marks.push((v[q], conflicting));
        q += 1;
        assert(st.marks@ =~= m0 + Seq::new(q as nat, |j: int| (v@[j], conflicting)));
    }
    let ghost vis0 = st.visited@;
    assert(vis0 == old(st).visited@);
    st.visited.push(s);
    proof {
        lemma_chain_links(*t, s as int, 0, t.e(s as int).tx.last_index, t.e(s as int).tx.bundle);
        lemma_chain_len(*t, s as int, 0, t.e(s as int).tx.last_index, t.e(s as int).tx.bundle);
        assert(approvees_done(*t, vis0, v@)) by {
            assert forall|j: int| 0 <= j < v@.len() implies done(*t, vis0, t.e((#[trigger] v@[j]) as int).tx.branch, t.e(v@[j] as int).branch_slot) by {
                assert(ap@[j + 1] == (t.e(v@[j] as int).tx.branch, t.e(v@[j] as int).branch_slot));
                assert(done(*t, old(st).visited@, ap@[j + 1].0, ap@[j + 1].1));
            }
            assert(ap@[v@.len() as int + 1] == (t.e(v@.last() as int).tx.trunk, t.e(v@.last() as int).trunk_slot));
            assert(done(*t, old(st).visited@, ap@[v@.len() as int + 1].0, ap@[v@.len() as int + 1].1));
        }
        assert forall|j: int| 0 <= j < v@.len() implies (#[trigger] st.marks@[m0.len() + j]).0 == v@[j] by {}
        lemma_mark_bundle(*t, vis0, m0, st.marks@, v@);
        assert(v@[0] == s);
        assert forall|x: usize| st.visited@.contains(x) implies #[trigger] marked(st.marks@, x) by {
            let j = choose|j: int| 0 <= j < st.visited@.len() && st.visited@[j] == x;
            if j < vis0.len() {
                assert(vis0[j] == x);
                assert(vis0.contains(x));
                assert(marked(m0, x));
            }
        }
        assert(st.walk_view() == after_bundle(*t, base@, w2, s, v@));
        assert forall|k: int| 0 <= k < st.marks@.len() implies (#[trigger] st.marks@[k]).0 < t.len() by {
            if k >= m0.len() {
                assert(st.marks@[k].0 == v@[k - m0.len()]);
            } else {
                assert(st.marks@[k] == m0[k]);
            }
        }
        assert forall|a: TernaryHash| #[trigger] st.scratch.balance(a) == base@.balance(a) + applied_diff(*t, st.applied@, a) by {
            if st.applied@ == w2.applied {
                assert(st.scratch.balances@ == s0.balances@);
                assert(s0.balance(a) == base@.balance(a) + applied_diff(*t, w2.applied, a));
            }
        }
        assert(st.meta.tails_included@ == st.applied@.map_values(|x: usize| t.e(x as int).hash));
        assert(st.scratch.wf());
        assert(marks_closed(*t, st.marks@));
    }
    Ok(())
}

/// Confirms milestone `index`, the next one after the last solid milestone.
/// The walk is the one `milestone_walk` describes. When it fails, nothing
/// changes and its error is returned. When it succeeds, each bundle it
/// applies changes the ledger, in walk order. Every slot it marks that was
/// not confirmed yet gets confirmed by `index` at `timestamp`, flagged
/// conflicting where its bundle conflicted. The metadata reports the walk,
/// and `index` becomes the last solid milestone index. A milestone at or
/// below the last solid one changes nothing and reports an empty walk.
pub fn confirm_milestone(t: &mut Tangle, ledger: &mut LedgerState, index: u32, timestamp: u64) -> (r: Result<
    WhiteFlagMetadata,
    Error,
>)
    requires
        old(t).wf(),
        old(ledger).wf(),
        index <= old(t).last_solid_index + 1,
    ensures
        final(t).wf(),
        final(ledger).wf(),
        old(t).confirmation_closed() ==> final(t).confirmation_closed(),
        r matches Ok(m) ==> m.index == index && m.timestamp == timestamp,
        index <= old(t).last_solid_index ==> {
            &&& r matches Ok(m) && reports(m, *old(t), empty_walk())
            &&& *final(t) == *old(t)
            &&& final(ledger).balances@ == old(ledger).balances@
        },
        index > old(t).last_solid_index ==> match milestone_walk(*old(t), *old(ledger), index) {
            Err(e) => {
                &&& r == Err::<WhiteFlagMetadata, Error>(e)
                &&& *final(t) == *old(t)
                &&& final(ledger).balances@ == old(ledger).balances@
            },
            Ok(w) => {
                &&& r matches Ok(m) && reports(m, *old(t), w)
                &&& forall|a: TernaryHash| #[trigger] final(ledger).balance(a) == old(ledger).balance(a) + applied_diff(*old(t), w.applied, a)
                &&& final(t).last_solid_index == index
                &&& final(t).last_index >= index
                &&& final(t).len() == old(t).len()
                &&& forall|i: int| 0 <= i < old(t).len() ==> #[trigger] final(t).e(i).meta == confirmed_meta(old(t).e(i).meta, mark_of(w.marks, i), index, timestamp)
                &&& forall|i: int| 0 <= i < old(t).len() ==> confirmed_from(#[trigger] old(t).e(i), final(t).e(i), index)
                &&& final(t).seps == old(t).seps
                &&& final(t).snapshot_index == old(t).snapshot_index
            },
        },
{
    if index <= t.last_solid_milestone_index() {
        let m = WhiteFlagMetadata::new(index, timestamp);
        proof {
            assert(m.tails_included@ =~= empty_walk().applied.map_values(|x: usize| t.e(x as int).hash));
        }
        return Ok(m);
    }
    let root = match t.milestone_hash(index) {
        Some(h) => h,
        None => {
            return Err(Error::MissingBundle);
        },
    };
    let meta = WhiteFlagMetadata::new(index, timestamp);
    proof {
        assert(meta.tails_included@ =~= empty_walk().applied.map_values(|x: usize| t.e(x as int).hash));
    }
    match t.find(&root) {
        None => {
            proof {
                assert(!t.contains(root));
            }
            if !t.contains_solid_entry_point(&root) {
                return Err(Error::MissingBundle);
            }
        },
        Some(s) => {
            proof {
                assert(t.contains(root)) by {
                    assert(t.e(s as int).hash == root);
                }
                let j = choose|j: int| 0 <= j < t.len() && (#[trigger] t.e(j)).hash == root;
                if j != s {
                    assert(t.e(j).hash != t.e(s as int).hash);
                }
                assert(slot_of(*t, root) == Some(s as int));
            }
            let e = t.entries[s];
            if !t.contains_solid_entry_point(&root) && e.meta.milestone_index.is_none() {
                if !e.meta.solid {
                    return Err(Error::MissingBundle);
                }
                let mut st = WalkState {
                    scratch: ledger.snapshot(),
                    visited: Vec::new(),
                    marks: Vec::new(),
                    meta: WhiteFlagMetadata::new(index, timestamp),
                    applied: Ghost(Seq::empty()),
                };
                let ghost base = *ledger;
                proof {
                    assert(st.meta.tails_included@ =~= st.applied@.map_values(|x: usize| t.e(x as int).hash));
                    assert(st.walk_view() == empty_walk());
                }
                match visit_exec(t, Ghost(base), &mut st, s) {
                    Err(err) => {
                        return Err(err);
                    },
                    Ok(()) => {
                        let ghost a = *t;
                        let ghost w = st.walk_view();
                        t.confirm(&st.marks, index, timestamp);
                        *ledger = st.scratch;
                        let ghost b = *t;
                        t.update_last_solid_milestone_index(index);
                        proof {
                            assert forall|i: int| 0 <= i < a.len() implies confirmed_from(#[trigger] a.e(i), t.e(i), index) by {
                                assert(confirmed_from(a.e(i), b.e(i), index));
                                assert(t.e(i) == b.e(i));
                            }
                            assert forall|i: int| 0 <= i < a.len() implies #[trigger] t.e(i).meta == confirmed_meta(a.e(i).meta, mark_of(w.marks, i), index, timestamp) by {
                                assert(t.e(i) == b.e(i));
                                assert(b.e(i).meta == confirmed_meta(a.e(i).meta, mark_of(st.marks@, i), index, timestamp));
                            }
                            if a.confirmation_closed() {
                                lemma_confirm_closes(a, *t, st.marks@, index);
                            }
                        }
                        return Ok(st.meta);
                    },
                }
            }
        },
    }
    let ghost before = *t;
    t.update_last_solid_milestone_index(index);
    proof {
        assert forall|i: int| 0 <= i < before.len() implies #[trigger] t.e(i) == before.e(i) by {}
        assert forall|i: int| 0 <= i < old(t).len() implies #[trigger] t.e(i).meta == confirmed_meta(old(t).e(i).meta, mark_of(empty_walk().marks, i), index, timestamp) by {
            assert(mark_of(empty_walk().marks, i) is None);
        }
        assert forall|i: int| 0 <= i < old(t).len() implies confirmed_from(#[trigger] old(t).e(i), t.e(i), index) by {}
    }
    Ok(meta)
}

/// Confirming a closed set of marks by the next milestone keeps
/// confirmation closed under parents.
proof fn lemma_confirm_closes(a: Tangle, c: Tangle, marks: Seq<(usize, bool)>, index: u32)
    requires
        a.wf(),
        c.wf(),
        a.confirmation_closed(),
        marks_closed(a, marks),
        forall|k: int| 0 <= k < marks.len() ==> (#[trigger] marks[k]).0 < a.len(),
        index > a.last_solid_index,
        c.last_solid_index >= index,
        c.len() == a.len(),
        c.seps == a.seps,
        forall|i: int| 0 <= i < a.len() ==> confirmed_from(#[trigger] a.e(i), c.e(i), index),
        forall|k: int| 0 <= k < marks.len() ==> (#[trigger] c.e(marks[k].0 as int)).meta.milestone_index is Some,
        forall|i: int|
            0 <= i < a.len() && (#[trigger] a.e(i)).meta.milestone_index is None && c.e(i).meta.milestone_index is Some
                ==> exists|q: int| 0 <= q < marks.len() && marks[q].0 == i,
    ensures
        c.confirmation_closed(),
{
    assert forall|x: usize| 0 <= x < a.len() && marked(marks, x) implies (#[trigger] c.e(x as int)).meta.milestone_index is Some by {
        let q = choose|q: int| 0 <= q < marks.len() && (#[trigger] marks[q]).0 == x;
        assert(c.e(marks[q].0 as int).meta.milestone_index is Some);
    }
    assert forall|x: int| 0 <= x < a.len() implies (#[trigger] c.e(x)).meta.milestone_index matches Some(mx) ==> mx <= index by {
        assert(confirmed_from(a.e(x), c.e(x), index));
        if a.e(x).meta.milestone_index is Some {
            assert(a.e(x).meta.milestone_index->Some_0 <= a.last_solid_index);
        }
    }
    assert forall|i: int| 0 <= i < c.len() implies match (#[trigger] c.e(i)).meta.milestone_index {
        Some(m) => {
            &&& m <= c.last_solid_index
            &&& c.parent_confirmed(c.e(i).tx.trunk, c.e(i).trunk_slot, m)
            &&& c.parent_confirmed(c.e(i).tx.branch, c.e(i).branch_slot, m)
        },
        None => true,
    } by {
        assert(confirmed_from(a.e(i), c.e(i), index));
        let e = a.e(i);
        assert(a.slot_matches(e.tx.trunk, e.trunk_slot));
        assert(a.slot_matches(e.tx.branch, e.branch_slot));
        if let Some(m) = c.e(i).meta.milestone_index {
            if let Some(m0) = e.meta.milestone_index {
                assert(m == m0);
                if let Some(x) = e.trunk_slot {
                    assert(confirmed_from(a.e(x as int), c.e(x as int), index));
                }
                if let Some(x) = e.branch_slot {
                    assert(confirmed_from(a.e(x as int), c.e(x as int), index));
                }
            } else {
                assert(m == index);
                let q = choose|q: int| 0 <= q < marks.len() && marks[q].0 == i;
                assert(covered(a, marks, e.tx.trunk, e.trunk_slot) && covered(a, marks, e.tx.branch, e.branch_slot)) by {
                    assert(a.e(marks[q].0 as int) == e);
                }
                if let Some(x) = e.trunk_slot {
                    assert(confirmed_from(a.e(x as int), c.e(x as int), index));
                }
                if let Some(x) = e.branch_slot {
                    assert(confirmed_from(a.e(x as int), c.e(x as int), index));
                }
            }
        }
    }
}
} // verus!
