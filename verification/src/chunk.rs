//! Names of embedded chunks.

use crate::hex::array32;
use crate::ids;
use crate::ids::{IdentityId, NodeRevisionId, bytes16};
use vstd::prelude::*;

verus! {

/// The name of a revision's chunk: the identity's bytes, then the revision's.
pub open spec fn chunk_of(identity: IdentityId, revision: NodeRevisionId) -> [u8; 32] {
    choose|a: [u8; 32]| #[trigger] a@ == identity.0@ + revision.0@
}

/// Names the chunk of a revision.
pub fn chunk_id(identity_id: IdentityId, revision_id: NodeRevisionId) -> (r: [u8; 32])
    ensures
        r == chunk_of(identity_id, revision_id),
        r@ == identity_id.0@ + revision_id.0@,
{
    let mut v: Vec<u8> = bytes16(&identity_id.0);
    let mut w: Vec<u8> = bytes16(&revision_id.0);
    v.append(&mut w);
    let r = array32(&v);
    proof {
        let c = chunk_of(identity_id, revision_id);
        assert(r@ == identity_id.0@ + revision_id.0@);
        assert(c@ == r@);
        assert(c =~= r);
    }
    r
}

/// Revisions of their own have chunks of their own.
pub proof fn law_chunks_apart(i: IdentityId, r: NodeRevisionId, j: IdentityId, s: NodeRevisionId)
    ensures
        chunk_of(i, r) == chunk_of(j, s) <==> i == j && r == s,
{
    lemma_chunk_bytes(i, r);
    lemma_chunk_bytes(j, s);
    let a = i.0@ + r.0@;
    let b = j.0@ + s.0@;
    if a == b {
        assert(a.take(16) =~= i.0@);
        assert(b.take(16) =~= j.0@);
        assert(a.skip(16) =~= r.0@);
        assert(b.skip(16) =~= s.0@);
        assert(i.0 =~= j.0);
        assert(r.0 =~= s.0);
    }
}

/// The bytes of a chunk's name.
proof fn lemma_chunk_bytes(i: IdentityId, r: NodeRevisionId)
    ensures
        chunk_of(i, r)@ == i.0@ + r.0@,
{
    let b = i.0@ + r.0@;
    ids::lemma_array32_exists(b);
    let a = choose|a: [u8; 32]| #[trigger] a@ == b;
    assert(a@ == b);
}

} // verus!
