//! The barrier that keeps queries off a branch while a merge on it is rolled back.

use crate::ids::BranchId;
use crate::keys;
use crate::keys::tagged_key;
use crate::kv::MemoryKv;
use crate::text;
use vstd::prelude::*;

verus! {

/// `merge_recovery_block:{branch}`.
pub open spec fn block_key(branch_id: BranchId) -> Seq<char> {
    keys::tagged("merge_recovery_block:"@, branch_id.0@)
}

/// Queries on the branch are held off.
pub open spec fn query_blocked(m: Map<Seq<char>, Seq<u8>>, branch_id: BranchId) -> bool {
    m.contains_key(block_key(branch_id))
}

/// The barrier.
#[derive(Debug, Clone, Copy)]
pub struct MergeRecoveryGate;

impl MergeRecoveryGate {
    /// A barrier.
    pub fn new() -> (r: Self)
        ensures
            r == MergeRecoveryGate,
    {
        MergeRecoveryGate
    }

    /// Puts up the barrier on a branch.
    pub fn begin_rollback(&self, kv: &mut MemoryKv, branch_id: BranchId)
        ensures
            final(kv)@ == old(kv)@.insert(block_key(branch_id), seq![1u8]),
    {
        let mut v: Vec<u8> = Vec::new();
        v.push(1u8);
        assert(v@ =~= seq![1u8]);
        kv.set(tagged_key("merge_recovery_block:", &branch_id.0).as_str(), v);
    }

    /// Takes down the barrier on a branch.
    pub fn end_rollback(&self, kv: &mut MemoryKv, branch_id: BranchId)
        ensures
            final(kv)@ == old(kv)@.remove(block_key(branch_id)),
    {
        kv.delete(tagged_key("merge_recovery_block:", &branch_id.0).as_str());
    }

    /// Whether there is a barrier on a branch.
    pub fn is_query_blocked(&self, kv: &MemoryKv, branch_id: BranchId) -> (r: bool)
        ensures
            r == query_blocked(kv@, branch_id),
    {
        kv.get(tagged_key("merge_recovery_block:", &branch_id.0).as_str()).is_some()
    }

    /// Whether there is a barrier on any branch.
    pub fn any_blocked(&self, kv: &MemoryKv) -> (r: bool)
        ensures
            r == exists|k: Seq<char>| #[trigger]
                kv@.contains_key(k) && text::begins_with(k, "merge_recovery_block:"@),
    {
        kv.any_with_prefix("merge_recovery_block:")
    }
}

/// A barrier that is put up and taken down leaves the store as it was, if there was none before, and
/// the barriers on other branches as they were in any case.
pub proof fn law_gate_round_trip(m: Map<Seq<char>, Seq<u8>>, b: BranchId, other: BranchId)
    ensures
        query_blocked(m.insert(block_key(b), seq![1u8]), b),
        !query_blocked(m.insert(block_key(b), seq![1u8]).remove(block_key(b)), b),
        !query_blocked(m, b) ==> m.insert(block_key(b), seq![1u8]).remove(block_key(b)) == m,
        other != b ==> query_blocked(m.insert(block_key(b), seq![1u8]), other) == query_blocked(
            m,
            other,
        ),
{
    keys::lemma_tagged_injective("merge_recovery_block:"@, b.0, other.0);
    if !query_blocked(m, b) {
        assert(m.insert(block_key(b), seq![1u8]).remove(block_key(b)) =~= m);
    }
}

/// While there is a barrier on some branch, it is seen that there is one.
pub proof fn law_blocked_branch_is_seen(m: Map<Seq<char>, Seq<u8>>, b: BranchId)
    requires
        query_blocked(m, b),
    ensures
        exists|k: Seq<char>| #[trigger]
            m.contains_key(k) && text::begins_with(k, "merge_recovery_block:"@),
{
    keys::lemma_tagged_injective("merge_recovery_block:"@, b.0, b.0);
    assert(m.contains_key(block_key(b)) && text::begins_with(block_key(b), "merge_recovery_block:"@));
}

} // verus!
