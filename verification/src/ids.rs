//! Identifiers: sixteen opaque bytes each, told apart by type.

use crate::hex;
use vstd::prelude::*;

verus! {

/// A branch of the revision graph.
#[derive(Debug, Clone, Copy, Eq, Hash)]
pub struct BranchId(pub [u8; 16]);

/// A symbol, independent of its revisions.
#[derive(Debug, Clone, Copy, Eq, Hash)]
pub struct IdentityId(pub [u8; 16]);

/// One revision of a symbol.
#[derive(Debug, Clone, Copy, Eq, Hash)]
pub struct NodeRevisionId(pub [u8; 16]);

/// One merge between branches.
#[derive(Debug, Clone, Copy, Eq, Hash)]
pub struct MergeId(pub [u8; 16]);

/// Whether two arrays hold the same bytes.
pub fn same_bytes16(a: &[u8; 16], b: &[u8; 16]) -> (r: bool)
    ensures
        r == (*a == *b),
{
    let mut i: usize = 0;
    while i < 16
        invariant
            i <= 16,
            forall|k: int| 0 <= k < i ==> a@[k] == b@[k],
        decreases 16 - i,
    {
        if a[i] != b[i] {
            return false;
        }
        i = i + 1;
    }
    assert(*a =~= *b);
    true
}

/// Whether two hashes hold the same bytes.
pub fn same_bytes32(a: &[u8; 32], b: &[u8; 32]) -> (r: bool)
    ensures
        r == (*a == *b),
{
    let mut i: usize = 0;
    while i < 32
        invariant
            i <= 32,
            forall|k: int| 0 <= k < i ==> a@[k] == b@[k],
        decreases 32 - i,
    {
        if a[i] != b[i] {
            return false;
        }
        i = i + 1;
    }
    assert(*a =~= *b);
    true
}

/// The bytes of an id as a vector.
pub fn bytes16(a: &[u8; 16]) -> (r: Vec<u8>)
    ensures
        r@ == a@,
{
    let mut out: Vec<u8> = Vec::new();
    out.extend_from_slice(a);
    out
}

impl PartialEq for BranchId {
    fn eq(&self, other: &Self) -> (r: bool) {
        let r = same_bytes16(&self.0, &other.0);
        assert(r == (*self == *other));
        r
    }
}

impl vstd::std_specs::cmp::PartialEqSpecImpl for BranchId {
    open spec fn obeys_eq_spec() -> bool {
        true
    }

    open spec fn eq_spec(&self, other: &Self) -> bool {
        *self == *other
    }
}

impl PartialEq for IdentityId {
    fn eq(&self, other: &Self) -> (r: bool) {
        let r = same_bytes16(&self.0, &other.0);
        assert(r == (*self == *other));
        r
    }
}

impl vstd::std_specs::cmp::PartialEqSpecImpl for IdentityId {
    open spec fn obeys_eq_spec() -> bool {
        true
    }

    open spec fn eq_spec(&self, other: &Self) -> bool {
        *self == *other
    }
}

impl PartialEq for NodeRevisionId {
    fn eq(&self, other: &Self) -> (r: bool) {
        let r = same_bytes16(&self.0, &other.0);
        assert(r == (*self == *other));
        r
    }
}

impl vstd::std_specs::cmp::PartialEqSpecImpl for NodeRevisionId {
    open spec fn obeys_eq_spec() -> bool {
        true
    }

    open spec fn eq_spec(&self, other: &Self) -> bool {
        *self == *other
    }
}

impl PartialEq for MergeId {
    fn eq(&self, other: &Self) -> (r: bool) {
        let r = same_bytes16(&self.0, &other.0);
        assert(r == (*self == *other));
        r
    }
}

impl vstd::std_specs::cmp::PartialEqSpecImpl for MergeId {
    open spec fn obeys_eq_spec() -> bool {
        true
    }

    open spec fn eq_spec(&self, other: &Self) -> bool {
        *self == *other
    }
}

/// The id whose bytes are `b`.
pub open spec fn array_of(b: Seq<u8>) -> [u8; 16] {
    choose|a: [u8; 16]| a@ == b
}

/// An array is settled by its bytes.
pub proof fn lemma_array_of(a: [u8; 16])
    ensures
        array_of(a@) == a,
{
    let c = array_of(a@);
    assert(c@ == a@);
    assert(c =~= a);
}

/// Sixteen bytes make an array.
pub proof fn lemma_array_exists(b: Seq<u8>)
    requires
        b.len() == 16,
    ensures
        array_of(b)@ == b,
{
    let a: [u8; 16] = [
        b[0],
        b[1],
        b[2],
        b[3],
        b[4],
        b[5],
        b[6],
        b[7],
        b[8],
        b[9],
        b[10],
        b[11],
        b[12],
        b[13],
        b[14],
        b[15],
    ];
    assert(a@ =~= b);
}

/// Thirty-two bytes make an array.
pub proof fn lemma_array32_exists(b: Seq<u8>)
    requires
        b.len() == 32,
    ensures
        exists|a: [u8; 32]| #[trigger] a@ == b,
{
    let a: [u8; 32] = [
        b[0],
        b[1],
        b[2],
        b[3],
        b[4],
        b[5],
        b[6],
        b[7],
        b[8],
        b[9],
        b[10],
        b[11],
        b[12],
        b[13],
        b[14],
        b[15],
        b[16],
        b[17],
        b[18],
        b[19],
        b[20],
        b[21],
        b[22],
        b[23],
        b[24],
        b[25],
        b[26],
        b[27],
        b[28],
        b[29],
        b[30],
        b[31],
    ];
    assert(a@ =~= b);
}

/// Two ids with one rendering are one id.
pub proof fn lemma_hex16_injective(a: [u8; 16], b: [u8; 16])
    requires
        hex::hex_of(a@) == hex::hex_of(b@),
    ensures
        a == b,
{
    hex::lemma_hex_injective(a@, b@);
    assert(a =~= b);
}

} // verus!
