use vstd::prelude::*;

verus! {

/// Number of bytes of a hash in the 5-trits-per-byte encoding (243 trits).
pub const HASH_BYTES: usize = 49;

/// A 243-trit transaction, bundle or address hash, held in its
/// 5-trits-per-byte encoding.
#[derive(Clone, Copy, Debug)]
pub struct TernaryHash {
    pub bytes: [u8; 49],
}

impl TernaryHash {
    pub fn new(bytes: [u8; 49]) -> (r: TernaryHash)
        ensures
            r.bytes == bytes,
    {
        TernaryHash { bytes }
    }

    /// The hash whose bytes are all zero.
    pub fn zeros() -> (r: TernaryHash)
        ensures
            forall|i: int| 0 <= i < 49 ==> r.bytes[i] == 0u8,
    {
        TernaryHash { bytes: [0u8; 49] }
    }

    /// A hash whose first byte is `b` and whose other bytes are zero.
    pub fn from_byte(b: u8) -> (r: TernaryHash)
        ensures
            r.bytes[0] == b,
            forall|i: int| 1 <= i < 49 ==> r.bytes[i] == 0u8,
    {
        let mut bytes = [0u8; 49];
        bytes[0] = b;
        TernaryHash { bytes }
    }
}

/// Compares two 49-byte strings byte by byte.
pub fn slice_eq(a: &[u8; 49], b: &[u8; 49]) -> (r: bool)
    ensures
        r == (a@ == b@),
{
    let mut i: usize = 0;
    while i < 49
        invariant
            0 <= i <= 49,
            a@.len() == 49,
            b@.len() == 49,
            forall|j: int| 0 <= j < i ==> a@[j] == b@[j],
        decreases 49 - i,
    {
        if a[i] != b[i] {
            return false;
        }
        i += 1;
    }
    assert(a@ =~= b@);
    true
}

/// Equality of hashes, decided by comparing their bytes.
pub fn hash_eq(a: &TernaryHash, b: &TernaryHash) -> (r: bool)
    ensures
        r == (*a == *b),
{
    let r = slice_eq(&a.bytes, &b.bytes);
    proof {
        if a.bytes@ == b.bytes@ {
            vstd::array::axiom_array_ext_equal(a.bytes, b.bytes);
            assert(a.bytes == b.bytes);
        }
    }
    r
}

impl PartialEq for TernaryHash {
    fn eq(&self, other: &TernaryHash) -> (r: bool) {
        hash_eq(self, other)
    }
}

impl vstd::std_specs::cmp::PartialEqSpecImpl for TernaryHash {
    open spec fn obeys_eq_spec() -> bool {
        true
    }

    open spec fn eq_spec(&self, other: &TernaryHash) -> bool {
        *self == *other
    }
}

impl Eq for TernaryHash {}

} // verus!
