use rand::Rng;
use vstd::prelude::*;

verus! {

/// Largest allowed distance between the last solid milestone and a tip's YTRSI.
pub const YTRSI_DELTA: u32 = 2;

/// Largest allowed distance between the last solid milestone and a parent's OTRSI.
pub const OTRSI_DELTA: u32 = 7;

/// Largest allowed distance between the last solid milestone and a tip's OTRSI.
pub const BELOW_MAX_DEPTH: u32 = 15;

/// How worth attaching to a tip is.
#[derive(Clone, Copy, Debug, PartialEq, Eq, Structural)]
pub enum Score {
    Lazy,
    SemiLazy,
    NonLazy,
}

impl Score {
    pub open spec fn weight_spec(self) -> nat {
        match self {
            Score::Lazy => 0,
            Score::SemiLazy => 1,
            Score::NonLazy => 2,
        }
    }

    /// The weight of a tip in the selection: 0, 1 or 2.
    pub fn weight(&self) -> (r: u64)
        ensures
            r == self.weight_spec(),
    {
        match self {
            Score::Lazy => 0,
            Score::SemiLazy => 1,
            Score::NonLazy => 2,
        }
    }
}

/// Tip-selection metadata of one transaction.
#[derive(Clone, Copy, Debug)]
pub struct TsaMetadata {
    /// Oldest root-snapshot index; unset until the transaction is solid.
    pub otrsi: Option<u32>,
    /// Youngest root-snapshot index; unset until the transaction is solid.
    pub ytrsi: Option<u32>,
    /// Number of times the transaction was selected as a tip.
    pub selected: u8,
}

impl TsaMetadata {
    pub fn new() -> (r: TsaMetadata)
        ensures
            r.otrsi is None,
            r.ytrsi is None,
            r.selected == 0,
    {
        TsaMetadata { otrsi: None, ytrsi: None, selected: 0 }
    }
}

/// `l - x > delta`, over the integers.
pub open spec fn exceeds(l: u32, x: u32, delta: u32) -> bool {
    l as int - x as int > delta as int
}

/// The score of a solid tip, from the last solid milestone index `l`, the
/// tip's OTRSI and YTRSI and its parents' OTRSI.
pub open spec fn score_spec(l: u32, otrsi: u32, ytrsi: u32, trunk_otrsi: u32, branch_otrsi: u32) -> Score {
    if exceeds(l, ytrsi, YTRSI_DELTA) {
        Score::Lazy
    } else if exceeds(l, otrsi, BELOW_MAX_DEPTH) {
        Score::Lazy
    } else {
        let trunk_ok = !exceeds(l, trunk_otrsi, OTRSI_DELTA);
        let branch_ok = !exceeds(l, branch_otrsi, OTRSI_DELTA);
        if trunk_ok && branch_ok {
            Score::NonLazy
        } else if trunk_ok || branch_ok {
            Score::SemiLazy
        } else {
            Score::Lazy
        }
    }
}

fn exceeds_exec(l: u32, x: u32, delta: u32) -> (r: bool)
    ensures
        r == exceeds(l, x, delta),
{
    l > x && l - x > delta
}

/// Scores a solid tip (see `score_spec`).
pub fn tip_score(l: u32, otrsi: u32, ytrsi: u32, trunk_otrsi: u32, branch_otrsi: u32) -> (r: Score)
    ensures
        r == score_spec(l, otrsi, ytrsi, trunk_otrsi, branch_otrsi),
{
    if exceeds_exec(l, ytrsi, YTRSI_DELTA) {
        return Score::Lazy;
    }
    if exceeds_exec(l, otrsi, BELOW_MAX_DEPTH) {
        return Score::Lazy;
    }
    let trunk_check = !exceeds_exec(l, trunk_otrsi, OTRSI_DELTA);
    let branch_check = !exceeds_exec(l, branch_otrsi, OTRSI_DELTA);
    if !trunk_check && !branch_check {
        return Score::Lazy;
    }
    if !trunk_check || !branch_check {
        return Score::SemiLazy;
    }
    Score::NonLazy
}

/// Sum of the first `i` weights.
pub open spec fn prefix_weight(w: Seq<u64>, i: int) -> int
    decreases i,
{
    if i <= 0 || i > w.len() {
        0
    } else {
        prefix_weight(w, i - 1) + w[i - 1]
    }
}

pub proof fn lemma_prefix_weight_monotone(w: Seq<u64>, i: int, j: int)
    requires
        0 <= i <= j <= w.len(),
    ensures
        prefix_weight(w, i) <= prefix_weight(w, j),
    decreases j - i,
{
    if i < j {
        lemma_prefix_weight_monotone(w, i, j - 1);
    }
}

/// Picks the entry whose share of the total weight holds the draw `r`: the
/// first `i` with `r < prefix_weight(w, i + 1)`. An entry of weight 2 thus
/// takes twice the draws of an entry of weight 1, and one of weight 0 none.
pub fn pick_weighted(w: &Vec<u64>, r: u64) -> (res: Option<usize>)
    requires
        prefix_weight(w@, w@.len() as int) <= u64::MAX,
    ensures
        res is None <==> r >= prefix_weight(w@, w@.len() as int),
        res matches Some(i) ==> {
            &&& i < w@.len()
            &&& prefix_weight(w@, i as int) <= r < prefix_weight(w@, i + 1)
            &&& w@[i as int] > 0
        },
{
    let mut acc: u64 = 0;
    let mut i: usize = 0;
    while i < w.len()
        invariant
            i <= w@.len(),
            acc == prefix_weight(w@, i as int),
            r >= acc,
            prefix_weight(w@, w@.len() as int) <= u64::MAX,
        decreases w@.len() - i,
    {
        proof {
            lemma_prefix_weight_monotone(w@, i + 1, w@.len() as int);
        }
        acc = acc + w[i];
        if r < acc {
            return Some(i);
        }
        i += 1;
    }
    None
}

/// Relies on rand's `thread_rng().gen_range(0, bound)`: a value in
/// `[0, bound)`; it panics where `bound` is 0.
#[verifier::external_body]
fn draw_below(bound: u64) -> (r: u64)
    requires
        bound > 0,
    ensures
        r < bound,
{
    rand::thread_rng().gen_range(0, bound)
}

/// Draws a tip index by weight: `None` when every weight is zero, else an
/// entry of positive weight.
pub fn draw_weighted(w: &Vec<u64>) -> (res: Option<usize>)
    requires
        prefix_weight(w@, w@.len() as int) <= u64::MAX,
    ensures
        res is None <==> prefix_weight(w@, w@.len() as int) == 0,
        res matches Some(i) ==> i < w@.len() && w@[i as int] > 0,
{
    let mut total: u64 = 0;
    let mut i: usize = 0;
    while i < w.len()
        invariant
            i <= w@.len(),
            total == prefix_weight(w@, i as int),
            prefix_weight(w@, w@.len() as int) <= u64::MAX,
        decreases w@.len() - i,
    {
        proof {
            lemma_prefix_weight_monotone(w@, i + 1, w@.len() as int);
        }
        total = total + w[i];
        i += 1;
    }
    if total == 0 {
        return None;
    }
    let r = draw_below(total);
    pick_weighted(w, r)
}

} // verus!
