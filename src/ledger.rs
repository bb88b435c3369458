use vstd::prelude::*;
use crate::hash::{TernaryHash, hash_eq};

verus! {

/// Total number of tokens; the balances always sum to it.
pub const IOTA_SUPPLY: i64 = 2_779_530_283_277_761;

/// Sum of all the values of a keyed list.
pub open spec fn sum_of(s: Seq<(TernaryHash, i64)>) -> int
    decreases s.len(),
{
    if s.len() == 0 {
        0
    } else {
        sum_of(s.drop_last()) + s.last().1
    }
}

/// Sum of the values listed under key `a`: the value of `a` where keys are unique.
pub open spec fn val_of(s: Seq<(TernaryHash, i64)>, a: TernaryHash) -> int
    decreases s.len(),
{
    if s.len() == 0 {
        0
    } else {
        val_of(s.drop_last(), a) + if s.last().0 == a {
            s.last().1 as int
        } else {
            0
        }
    }
}

pub open spec fn keys_unique(s: Seq<(TernaryHash, i64)>) -> bool {
    forall|i: int, j: int| 0 <= i < s.len() && 0 <= j < s.len() && i != j ==> (#[trigger] s[i]).0 != (#[trigger] s[j]).0
}

pub open spec fn has_key(s: Seq<(TernaryHash, i64)>, a: TernaryHash) -> bool {
    exists|i: int| 0 <= i < s.len() && (#[trigger] s[i]).0 == a
}

pub proof fn lemma_update(s: Seq<(TernaryHash, i64)>, i: int, v: i64, a: TernaryHash)
    requires
        0 <= i < s.len(),
    ensures
        sum_of(s.update(i, (s[i].0, v))) == sum_of(s) - s[i].1 + v,
        val_of(s.update(i, (s[i].0, v)), a) == val_of(s, a) + if s[i].0 == a { v - s[i].1 } else { 0 },
    decreases s.len(),
{
    let t = s.update(i, (s[i].0, v));
    if i == s.len() - 1 {
        assert(t.drop_last() =~= s.drop_last());
    } else {
        lemma_update(s.drop_last(), i, v, a);
        assert(t.drop_last() =~= s.drop_last().update(i, (s[i].0, v)));
    }
}

pub proof fn lemma_push(s: Seq<(TernaryHash, i64)>, k: TernaryHash, v: i64, a: TernaryHash)
    ensures
        sum_of(s.push((k, v))) == sum_of(s) + v,
        val_of(s.push((k, v)), a) == val_of(s, a) + if k == a { v as int } else { 0 },
{
    assert(s.push((k, v)).drop_last() =~= s);
}

pub proof fn lemma_val_absent(s: Seq<(TernaryHash, i64)>, a: TernaryHash)
    requires
        !has_key(s, a),
    ensures
        val_of(s, a) == 0,
    decreases s.len(),
{
    if s.len() > 0 {
        assert(!has_key(s.drop_last(), a)) by {
            if has_key(s.drop_last(), a) {
                let i = choose|i: int| 0 <= i < s.drop_last().len() && (#[trigger] s.drop_last()[i]).0 == a;
                assert(s[i].0 == a);
            }
        }
        assert(s[s.len() - 1].0 != a);
        lemma_val_absent(s.drop_last(), a);
    }
}

pub proof fn lemma_val_at(s: Seq<(TernaryHash, i64)>, i: int)
    requires
        keys_unique(s),
        0 <= i < s.len(),
    ensures
        val_of(s, s[i].0) == s[i].1,
    decreases s.len(),
{
    let a = s[i].0;
    if i == s.len() - 1 {
        assert(!has_key(s.drop_last(), a)) by {
            if has_key(s.drop_last(), a) {
                let j = choose|j: int| 0 <= j < s.drop_last().len() && (#[trigger] s.drop_last()[j]).0 == a;
                assert(s[j].0 == a);
            }
        }
        lemma_val_absent(s.drop_last(), a);
    } else {
        assert(keys_unique(s.drop_last())) by {
            assert forall|x: int, y: int| 0 <= x < s.drop_last().len() && 0 <= y < s.drop_last().len() && x != y
                implies (#[trigger] s.drop_last()[x]).0 != (#[trigger] s.drop_last()[y]).0 by {
                assert(s[x].0 != s[y].0);
            }
        }
        assert(s.last().0 != a) by {
            assert(s[s.len() - 1].0 != s[i].0);
        }
        lemma_val_at(s.drop_last(), i);
    }
}

/// The slot of key `a` in a keyed list.
pub fn find_key(s: &Vec<(TernaryHash, i64)>, a: &TernaryHash) -> (r: Option<usize>)
    ensures
        match r {
            Some(i) => i < s@.len() && s@[i as int].0 == *a,
            None => !has_key(s@, *a),
        },
{
    let mut i: usize = 0;
    while i < s.len()
        invariant
            i <= s@.len(),
            forall|j: int| 0 <= j < i ==> (#[trigger] s@[j]).0 != *a,
        decreases s@.len() - i,
    {
        if hash_eq(&s[i].0, a) {
            return Some(i);
        }
        i += 1;
    }
    None
}

/// Adds `d` to the value of key `a`, listing `a` if it is not yet listed.
pub fn add_to_key(s: &mut Vec<(TernaryHash, i64)>, a: TernaryHash, d: i64)
    requires
        keys_unique(old(s)@),
        i64::MIN <= val_of(old(s)@, a) + d <= i64::MAX,
    ensures
        keys_unique(final(s)@),
        sum_of(final(s)@) == sum_of(old(s)@) + d,
        forall|b: TernaryHash| #[trigger] val_of(final(s)@, b) == val_of(old(s)@, b) + if b == a { d as int } else { 0 },
        forall|b: TernaryHash| has_key(old(s)@, b) ==> #[trigger] has_key(final(s)@, b),
        forall|b: TernaryHash| #[trigger] has_key(final(s)@, b) ==> has_key(old(s)@, b) || b == a,
        has_key(final(s)@, a),
{
    match find_key(s, &a) {
        Some(i) => {
            proof {
                lemma_val_at(s@, i as int);
            }
            let v = s[i].1 + d;
            let ghost before = s@;
            s.set(i, (a, v));
            proof {
                assert(s@[i as int].0 == a);
                assert forall|b: TernaryHash| #[trigger] val_of(s@, b) == val_of(before, b) + if b == a { d as int } else { 0 } by {
                    lemma_update(before, i as int, v, b);
                }
                lemma_update(before, i as int, v, a);
                assert forall|x: int, y: int| 0 <= x < s@.len() && 0 <= y < s@.len() && x != y
                    implies (#[trigger] s@[x]).0 != (#[trigger] s@[y]).0 by {
                    assert(before[x].0 != before[y].0);
                }
                assert forall|b: TernaryHash| has_key(before, b) implies #[trigger] has_key(s@, b) by {
                    let j = choose|j: int| 0 <= j < before.len() && (#[trigger] before[j]).0 == b;
                    assert(s@[j].0 == b);
                }
                assert forall|b: TernaryHash| #[trigger] has_key(s@, b) implies has_key(before, b) || b == a by {
                    let j = choose|j: int| 0 <= j < s@.len() && (#[trigger] s@[j]).0 == b;
                    assert(before[j].0 == b);
                }
            }
        },
        None => {
            let ghost before = s@;
            s.push((a, d));
            proof {
                assert(s@[before.len() as int].0 == a);
                assert forall|b: TernaryHash| #[trigger] val_of(s@, b) == val_of(before, b) + if b == a { d as int } else { 0 } by {
                    lemma_push(before, a, d, b);
                }
                lemma_push(before, a, d, a);
                assert forall|x: int, y: int| 0 <= x < s@.len() && 0 <= y < s@.len() && x != y
                    implies (#[trigger] s@[x]).0 != (#[trigger] s@[y]).0 by {
                    if x < before.len() && y < before.len() {
                        assert(before[x].0 != before[y].0);
                    } else if x < before.len() {
                        assert(before[x].0 != a);
                    } else {
                        assert(before[y].0 != a);
                    }
                }
                assert forall|b: TernaryHash| has_key(before, b) implies #[trigger] has_key(s@, b) by {
                    let j = choose|j: int| 0 <= j < before.len() && (#[trigger] before[j]).0 == b;
                    assert(s@[j].0 == b);
                }
                assert forall|b: TernaryHash| #[trigger] has_key(s@, b) implies has_key(before, b) || b == a by {
                    let j = choose|j: int| 0 <= j < s@.len() && (#[trigger] s@[j]).0 == b;
                    if j < before.len() {
                        assert(before[j].0 == b);
                    }
                }
            }
        },
    }
}

/// With unique keys, every value of a keyed list fits in 64 bits.
pub proof fn lemma_val_range(s: Seq<(TernaryHash, i64)>, a: TernaryHash)
    requires
        keys_unique(s),
    ensures
        i64::MIN <= val_of(s, a) <= i64::MAX,
{
    if has_key(s, a) {
        let j = choose|j: int| 0 <= j < s.len() && (#[trigger] s[j]).0 == a;
        lemma_val_at(s, j);
    } else {
        lemma_val_absent(s, a);
    }
}

/// The value of key `a`: 0 where it is not listed.
pub fn value_of_key(s: &Vec<(TernaryHash, i64)>, a: &TernaryHash) -> (r: i64)
    requires
        keys_unique(s@),
    ensures
        r == val_of(s@, *a),
{
    match find_key(s, a) {
        Some(i) => {
            proof {
                lemma_val_at(s@, i as int);
            }
            s[i].1
        },
        None => {
            proof {
                lemma_val_absent(s@, *a);
            }
            0
        },
    }
}

/// Balances of addresses. Unlisted addresses hold nothing.
pub struct LedgerState {
    pub balances: Vec<(TernaryHash, i64)>,
}

impl LedgerState {
    pub open spec fn balance(&self, a: TernaryHash) -> int {
        val_of(self.balances@, a)
    }

    /// Each balance lies in [0, IOTA_SUPPLY] and all of them sum to IOTA_SUPPLY.
    pub open spec fn wf(&self) -> bool {
        &&& keys_unique(self.balances@)
        &&& sum_of(self.balances@) == IOTA_SUPPLY
        &&& forall|i: int| 0 <= i < self.balances@.len() ==> 0 <= (#[trigger] self.balances@[i]).1 <= IOTA_SUPPLY
    }

    /// The whole supply at one address.
    pub fn genesis(address: TernaryHash) -> (r: LedgerState)
        ensures
            r.wf(),
            r.balance(address) == IOTA_SUPPLY,
            forall|b: TernaryHash| b != address ==> #[trigger] r.balance(b) == 0,
    {
        let mut balances: Vec<(TernaryHash, i64)> = Vec::new();
        balances.push((address, IOTA_SUPPLY));
        proof {
            let e = Seq::<(TernaryHash, i64)>::empty();
            assert(balances@ =~= e.push((address, IOTA_SUPPLY)));
            lemma_push(e, address, IOTA_SUPPLY, address);
            assert forall|b: TernaryHash| b != address implies #[trigger] val_of(balances@, b) == 0 by {
                lemma_push(e, address, IOTA_SUPPLY, b);
            }
        }
        LedgerState { balances }
    }

    pub fn get_or_zero(&self, a: &TernaryHash) -> (r: i64)
        requires
            keys_unique(self.balances@),
        ensures
            r == self.balance(*a),
    {
        value_of_key(&self.balances, a)
    }

    /// A copy of the balances.
    pub fn snapshot(&self) -> (r: LedgerState)
        ensures
            r.balances@ == self.balances@,
    {
        let mut balances: Vec<(TernaryHash, i64)> = Vec::new();
        let mut i: usize = 0;
        while i < self.balances.len()
            invariant
                i <= self.balances@.len(),
                balances@ == self.balances@.subrange(0, i as int),
            decreases self.balances@.len() - i,
        {
            balances.push(self.balances[i]);
            i += 1;
            assert(balances@ =~= self.balances@.subrange(0, i as int));
        }
        assert(balances@ =~= self.balances@);
        LedgerState { balances }
    }
}


/// Applying the mutations would take some balance out of [0, IOTA_SUPPLY].
pub open spec fn conflicts(l: LedgerState, m: Seq<(TernaryHash, i64)>) -> bool {
    exists|k: int| 0 <= k < m.len() && !(0 <= l.balance((#[trigger] m[k]).0) + m[k].1 <= IOTA_SUPPLY)
}

/// Applies a bundle's mutations, one per address and summing to zero,
/// unless one of them conflicts; returns whether one did. On a conflict the
/// ledger is left as it was.
pub fn apply_mutations(ledger: &mut LedgerState, m: &Vec<(TernaryHash, i64)>) -> (conflicting: bool)
    requires
        old(ledger).wf(),
        keys_unique(m@),
        sum_of(m@) == 0,
    ensures
        final(ledger).wf(),
        conflicting == conflicts(*old(ledger), m@),
        conflicting ==> final(ledger).balances@ == old(ledger).balances@,
        !conflicting ==> forall|a: TernaryHash| #[trigger] final(ledger).balance(a) == old(ledger).balance(a) + val_of(m@, a),
{
    let mut k: usize = 0;
    while k < m.len()
        invariant
            k <= m@.len(),
            ledger.wf(),
            forall|j: int| 0 <= j < k ==> 0 <= ledger.balance((#[trigger] m@[j]).0) + m@[j].1 <= IOTA_SUPPLY,
        decreases m@.len() - k,
    {
        let (a, d) = m[k];
        let b = ledger.get_or_zero(&a);
        proof {
            lemma_balance_bounded(*ledger, a);
        }
        if (b as i128) + (d as i128) < 0 || (b as i128) + (d as i128) > IOTA_SUPPLY as i128 {
            proof {
                assert(!(0 <= ledger.balance(m@[k as int].0) + m@[k as int].1 <= IOTA_SUPPLY));
            }
            return true;
        }
        k += 1;
    }
    let ghost l0 = *ledger;
    let mut k: usize = 0;
    proof {
        assert(m@.subrange(0, 0) =~= Seq::<(TernaryHash, i64)>::empty());
    }
    while k < m.len()
        invariant
            k <= m@.len(),
            keys_unique(m@),
            l0.wf(),
            forall|j: int| 0 <= j < m@.len() ==> 0 <= l0.balance((#[trigger] m@[j]).0) + m@[j].1 <= IOTA_SUPPLY,
            keys_unique(ledger.balances@),
            sum_of(ledger.balances@) == IOTA_SUPPLY + sum_of(m@.subrange(0, k as int)),
            forall|a: TernaryHash| #[trigger] ledger.balance(a) == l0.balance(a) + val_of(m@.subrange(0, k as int), a),
            forall|a: TernaryHash| #[trigger] has_key(ledger.balances@, a) ==> has_key(l0.balances@, a) || has_key(m@.subrange(0, k as int), a),
        decreases m@.len() - k,
    {
        let (a, d) = m[k];
        let ghost sub = m@.subrange(0, k as int);
        let ghost sub1 = m@.subrange(0, k + 1);
        proof {
            assert(sub1.drop_last() =~= sub);
            assert(!has_key(sub, a)) by {
                if has_key(sub, a) {
                    let j = choose|j: int| 0 <= j < sub.len() && (#[trigger] sub[j]).0 == a;
                    assert(m@[j].0 == m@[k as int].0);
                }
            }
            lemma_val_absent(sub, a);
            assert(0 <= l0.balance(m@[k as int].0) + m@[k as int].1 <= IOTA_SUPPLY);
            assert(ledger.balance(a) == l0.balance(a) + val_of(sub, a));
            assert(val_of(ledger.balances@, a) == ledger.balance(a));
        }
        let ghost lb = *ledger;
        let ghost before = ledger.balances@;
        add_to_key(&mut ledger.balances, a, d);
        proof {
            assert forall|x: TernaryHash| #[trigger] ledger.balance(x) == l0.balance(x) + val_of(sub1, x) by {
                assert(val_of(ledger.balances@, x) == val_of(before, x) + if x == a { d as int } else { 0 });
                assert(lb.balance(x) == l0.balance(x) + val_of(sub, x));
                assert(sub1.last() == (a, d));
                assert(val_of(sub1, x) == val_of(sub1.drop_last(), x) + if sub1.last().0 == x { sub1.last().1 as int } else { 0 });
            }
            assert forall|x: TernaryHash| #[trigger] has_key(ledger.balances@, x) implies has_key(l0.balances@, x) || has_key(sub1, x) by {
                assert(has_key(before, x) || x == a);
                if has_key(before, x) {
                    assert(has_key(lb.balances@, x));
                }
                if has_key(sub, x) {
                    let j = choose|j: int| 0 <= j < sub.len() && (#[trigger] sub[j]).0 == x;
                    assert(sub1[j].0 == x);
                }
                if x == a {
                    assert(sub1[k as int].0 == x);
                }
            }
        }
        k += 1;
    }
    proof {
        assert(m@.subrange(0, k as int) =~= m@);
        assert forall|i: int| 0 <= i < ledger.balances@.len() implies 0 <= (#[trigger] ledger.balances@[i]).1 <= IOTA_SUPPLY by {
            let x = ledger.balances@[i].0;
            lemma_val_at(ledger.balances@, i);
            assert(has_key(ledger.balances@, x));
            assert(ledger.balance(x) == l0.balance(x) + val_of(m@, x));
            if has_key(m@, x) {
                let j = choose|j: int| 0 <= j < m@.len() && (#[trigger] m@[j]).0 == x;
                lemma_val_at(m@, j);
                assert(0 <= l0.balance(m@[j].0) + m@[j].1 <= IOTA_SUPPLY);
            } else {
                lemma_val_absent(m@, x);
                assert(has_key(l0.balances@, x));
                let j = choose|j: int| 0 <= j < l0.balances@.len() && (#[trigger] l0.balances@[j]).0 == x;
                lemma_val_at(l0.balances@, j);
            }
        }
    }
    false
}

/// A balance of a well-formed ledger lies in [0, IOTA_SUPPLY].
pub proof fn lemma_balance_bounded(l: LedgerState, a: TernaryHash)
    requires
        l.wf(),
    ensures
        0 <= l.balance(a) <= IOTA_SUPPLY,
{
    if has_key(l.balances@, a) {
        let j = choose|j: int| 0 <= j < l.balances@.len() && (#[trigger] l.balances@[j]).0 == a;
        lemma_val_at(l.balances@, j);
    } else {
        lemma_val_absent(l.balances@, a);
    }
}
} // verus!
