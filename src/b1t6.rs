use vstd::prelude::*;

verus! {

pub const TRITS_PER_TRYTE: usize = 3;

pub const TRITS_PER_BYTE: usize = 6;

/// A balanced trit: -1, 0 or 1.
pub open spec fn is_trit(t: i8) -> bool {
    -1 <= t <= 1
}

/// The value of the three balanced trits starting at `j`, least significant first.
pub open spec fn tryte_value(s: Seq<i8>, j: int) -> int {
    s[j] as int + 3 * s[j + 1] as int + 9 * s[j + 2] as int
}

/// The value that the `k`-th group of six trits encodes.
pub open spec fn group_value(s: Seq<i8>, k: int) -> int {
    tryte_value(s, 6 * k) + 27 * tryte_value(s, 6 * k + 3)
}

/// The trits can be decoded: whole groups of six valid trits, each within a byte.
pub open spec fn decodable(s: Seq<i8>) -> bool {
    &&& s.len() % 6 == 0
    &&& forall|j: int| 0 <= j < s.len() ==> is_trit(#[trigger] s[j])
    &&& forall|k: int| 0 <= k < s.len() / 6 ==> -128 <= #[trigger] group_value(s, k) <= 127
}

/// Combines two tryte values into the signed byte `t1 + 27 * t2`, if it fits.
pub fn decode_group(t1: i8, t2: i8) -> (r: Result<i8, ()>)
    ensures
        (-128 <= t1 + 27 * t2 <= 127) ==> r == Ok::<i8, ()>((t1 + 27 * t2) as i8),
        !(-128 <= t1 + 27 * t2 <= 127) ==> r is Err,
{
    let v: i32 = t1 as i32 + t2 as i32 * 27;
    if v < i8::MIN as i32 || v > i8::MAX as i32 {
        return Err(());
    }
    Ok(v as i8)
}

fn tryte_at(src: &[i8], j: usize) -> (r: i8)
    requires
        j + 3 <= src@.len(),
        forall|i: int| j <= i < j + 3 ==> is_trit(#[trigger] src@[i]),
    ensures
        r == tryte_value(src@, j as int),
{
    src[j] + 3 * src[j + 1] + 9 * src[j + 2]
}

/// Decodes trits, six to a byte: `None` where `decodable` does not hold.
pub fn decode(src: &[i8]) -> (r: Option<Vec<u8>>)
    ensures
        r is Some <==> decodable(src@),
        r matches Some(bytes) ==> {
            &&& bytes@.len() == src@.len() / 6
            &&& forall|k: int| 0 <= k < bytes@.len() ==> #[trigger] bytes@[k] == group_value(src@, k) as i8 as u8
        },
{
    let n = src.len();
    if n % TRITS_PER_BYTE != 0 {
        return None;
    }
    let mut i: usize = 0;
    while i < n
        invariant
            n == src@.len(),
            i <= n,
            forall|j: int| 0 <= j < i ==> is_trit(#[trigger] src@[j]),
        decreases n - i,
    {
        if src[i] < -1 || src[i] > 1 {
            return None;
        }
        i += 1;
    }
    let mut bytes: Vec<u8> = Vec::with_capacity(n / TRITS_PER_BYTE);
    let mut k: usize = 0;
    while k < n / TRITS_PER_BYTE
        invariant
            n == src@.len(),
            n % 6 == 0,
            forall|j: int| 0 <= j < n ==> is_trit(#[trigger] src@[j]),
            k <= n / 6,
            bytes@.len() == k,
            forall|m: int| 0 <= m < k ==> -128 <= #[trigger] group_value(src@, m) <= 127,
            forall|m: int| 0 <= m < k ==> #[trigger] bytes@[m] == group_value(src@, m) as i8 as u8,
        decreases n / 6 - k,
    {
        let j = k * TRITS_PER_BYTE;
        assert(j + 6 <= n) by (nonlinear_arith)
            requires j == k * 6, k < n / 6, n % 6 == 0;
        let t1 = tryte_at(src, j);
        let t2 = tryte_at(src, j + TRITS_PER_TRYTE);
        match decode_group(t1, t2) {
            Ok(b) => {
                bytes.push(b as u8);
            },
            Err(()) => {
                assert(!decodable(src@)) by {
                    assert(group_value(src@, k as int) == t1 + 27 * t2);
                }
                return None;
            },
        }
        k += 1;
    }
    Some(bytes)
}

} // verus!
