//! Marks of identities that a branch has deleted.

use crate::bytes;
use crate::bytes::{le_u64, u64_le};
use crate::clock::now_epoch_ms;
use crate::hex;
use crate::hex::hex16;
use crate::ids::{BranchId, IdentityId};
use crate::keys;
use crate::keys::tagged_rest_key;
use crate::kv;
use crate::kv::MemoryKv;
use crate::revision_index;
use crate::revision_index::fork_timestamp;
use vstd::prelude::*;

verus! {

/// `deleted:{branch}:{identity}`.
pub open spec fn deletion_key(branch: BranchId, identity: IdentityId) -> Seq<char> {
    keys::tagged_rest("deleted:"@, branch.0@, hex::hex_of(identity.0@))
}

/// Builds `deleted:{branch}:{identity}`.
pub fn deleted_key(branch: BranchId, identity: IdentityId) -> (r: String)
    ensures
        r@ == deletion_key(branch, identity),
{
    tagged_rest_key("deleted:", &branch.0, hex16(&identity.0).as_str())
}

/// When a branch deleted an identity; a mark that tells no time counts as the earliest.
pub open spec fn deleted_at(
    m: Map<Seq<char>, Seq<u8>>,
    branch: BranchId,
    identity: IdentityId,
) -> Option<u64> {
    match kv::value_at(m, deletion_key(branch, identity)) {
        Some(v) => if v.len() == 8 {
            Some(bytes::le_value(v) as u64)
        } else {
            Some(0)
        },
        None => None,
    }
}

/// The branch at `k` hides an identity from the branch in front of the chain: it has deleted it,
/// and not after the branch before it in the chain was made from it.
pub open spec fn hides(
    m: Map<Seq<char>, Seq<u8>>,
    chain: Seq<BranchId>,
    k: int,
    identity: IdentityId,
) -> bool {
    match deleted_at(m, chain[k], identity) {
        Some(t) => k == 0 || match revision_index::forked_at(m, chain[k - 1]) {
            Some(f) => t <= f,
            None => true,
        },
        None => false,
    }
}

/// Some branch of a chain hides an identity.
pub open spec fn hidden(
    m: Map<Seq<char>, Seq<u8>>,
    chain: Seq<BranchId>,
    identity: IdentityId,
) -> bool {
    exists|k: int| 0 <= k < chain.len() && #[trigger] hides(m, chain, k, identity)
}

/// Sets and reads marks.
#[derive(Debug)]
pub struct DeletionAbsenceStore;

impl DeletionAbsenceStore {
    pub fn new() -> (r: Self)
        ensures
            r == DeletionAbsenceStore,
    {
        DeletionAbsenceStore
    }

    /// Marks an identity as deleted at a given time.
    pub fn mark_deleted_at(
        &self,
        kv: &mut MemoryKv,
        branch: BranchId,
        identity: IdentityId,
        now_ms: u64,
    )
        ensures
            final(kv)@ == old(kv)@.insert(deletion_key(branch, identity), bytes::le(now_ms as nat, 8)),
            deleted_at(final(kv)@, branch, identity) == Some(now_ms),
    {
        kv.set(deleted_key(branch, identity).as_str(), u64_le(now_ms));
    }

    /// Marks an identity as deleted now.
    pub fn mark_deleted(&self, kv: &mut MemoryKv, branch: BranchId, identity: IdentityId)
        ensures
            exists|now_ms: u64|
                final(kv)@ == #[trigger] old(kv)@.insert(
                    deletion_key(branch, identity),
                    bytes::le(now_ms as nat, 8),
                ),
            deleted_at(final(kv)@, branch, identity) is Some,
    {
        let now_ms = now_epoch_ms();
        self.mark_deleted_at(kv, branch, identity, now_ms);
    }

    /// Takes a mark away.
    pub fn clear_deleted(&self, kv: &mut MemoryKv, branch: BranchId, identity: IdentityId)
        ensures
            final(kv)@ == old(kv)@.remove(deletion_key(branch, identity)),
            deleted_at(final(kv)@, branch, identity) is None,
    {
        kv.delete(deleted_key(branch, identity).as_str());
    }

    /// Reads when a branch deleted an identity.
    pub fn deletion_time(&self, kv: &MemoryKv, branch: BranchId, identity: IdentityId) -> (r: Option<
        u64,
    >)
        ensures
            r == deleted_at(kv@, branch, identity),
    {
        match kv.get(deleted_key(branch, identity).as_str()) {
            Some(v) => {
                if v.len() == 8 {
                    Some(le_u64(&v))
                } else {
                    Some(0)
                }
            },
            None => None,
        }
    }

    /// Whether a branch of a chain hides an identity.
    pub fn is_deleted_in_chain(
        &self,
        kv: &MemoryKv,
        chain: &Vec<BranchId>,
        identity: IdentityId,
    ) -> (r: bool)
        ensures
            r == hidden(kv@, chain@, identity),
    {
        let mut k: usize = 0;
        while k < chain.len()
            invariant
                k <= chain.len(),
                forall|j: int| 0 <= j < k ==> !(#[trigger] hides(kv@, chain@, j, identity)),
            decreases chain.len() - k,
        {
            let hid = match self.deletion_time(kv, chain[k], identity) {
                Some(t) => {
                    if k == 0 {
                        true
                    } else {
                        match fork_timestamp(kv, chain[k - 1]) {
                            Some(f) => t <= f,
                            None => true,
                        }
                    }
                },
                None => false,
            };
            assert(hid == hides(kv@, chain@, k as int, identity));
            if hid {
                return true;
            }
            k = k + 1;
        }
        false
    }
}

/// What a branch deleted stays hidden from it until the mark is taken away, also behind an ancestor
/// that still has it.
pub proof fn law_deletion_hides(
    m: Map<Seq<char>, Seq<u8>>,
    chain: Seq<BranchId>,
    identity: IdentityId,
    now_ms: u64,
)
    requires
        chain.len() > 0,
    ensures
        hidden(
            m.insert(deletion_key(chain[0], identity), bytes::le(now_ms as nat, 8)),
            chain,
            identity,
        ),
        chain.len() == 1 ==> !hidden(m.remove(deletion_key(chain[0], identity)), chain, identity),
{
    let marked = m.insert(deletion_key(chain[0], identity), bytes::le(now_ms as nat, 8));
    assert(hides(marked, chain, 0, identity));
    let cleared = m.remove(deletion_key(chain[0], identity));
    assert(deleted_at(cleared, chain[0], identity) is None);
}

} // verus!
