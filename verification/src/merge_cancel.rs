//! Cancelling a merge on request.

use crate::graph::{GraphView, InMemoryGraph};
use crate::hex;
use crate::hex::parse_strict_id;
use crate::ids;
use crate::ids::{BranchId, IdentityId, MergeId, NodeRevisionId};
use crate::keys;
use crate::kv;
use crate::kv::MemoryKv;
use crate::merge_control;
use crate::merge_control::{ChunkCleanup, MergeCancelReport, MergeControl};
use crate::merge_gate;
use crate::merge_gate::MergeRecoveryGate;
use crate::merge_lock;
use crate::merge_lock::sweep_all_expired_merge_intents;
use crate::merge_resume;
use crate::merge_resume::MergeContext;
use crate::saga;
use crate::saga::MergeSagaOrchestrator;
use crate::security::{AuthError, AuthProvider};
use crate::text;
use crate::vector_store;
use crate::vector_store::VectorChunkStore;
use crate::wal;
use crate::wal::{MutationLog, append_merge_cancelled_marker};
use vstd::prelude::*;

verus! {

/// What a store comes to once the steps of a merge are forgotten and the barrier is taken down.
pub open spec fn cancel_settled(
    m: Map<Seq<char>, Seq<u8>>,
    merge_id: MergeId,
    branch: BranchId,
) -> Map<Seq<char>, Seq<u8>> {
    saga::saga_purged(m, merge_id).remove(merge_resume::context_key(merge_id)).remove(merge_gate::block_key(branch))
}

/// Cancelling a merge and forgetting its steps leads from one store and graph to another.
pub open spec fn cancelled_for_good(
    m: Map<Seq<char>, Seq<u8>>,
    g: GraphView,
    merge_id: MergeId,
    branch: BranchId,
    revisions: Seq<NodeRevisionId>,
    m_after: Map<Seq<char>, Seq<u8>>,
    g_after: GraphView,
) -> bool {
    exists|undone: Map<Seq<char>, Seq<u8>>| #[trigger]
        merge_control::cancelled(m, g, merge_id, branch, revisions, undone, g_after) && m_after
            == cancel_settled(undone, merge_id, branch)
}

/// A store with queries on a branch held back.
pub open spec fn held_back(m: Map<Seq<char>, Seq<u8>>, branch: BranchId) -> Map<
    Seq<char>,
    Seq<u8>,
> {
    m.insert(merge_gate::block_key(branch), seq![1u8])
}

/// The report counts the bindings and the recorded keys of the merge, the revisions whose edges were
/// to be dropped and the chunks that were deleted.
pub open spec fn reported(
    m: Map<Seq<char>, Seq<u8>>,
    branch: BranchId,
    revisions: Seq<NodeRevisionId>,
    cleaned: ChunkCleanup,
    report: MergeCancelReport,
) -> bool {
    &&& exists|rows: Seq<(String, Vec<u8>)>| #[trigger]
        kv::scanned(
            merge_control::batches_purged(m, report.merge_id),
            merge_control::snapshot_prefix(report.merge_id),
            rows,
        ) && report.restored_bindings == merge_control::restored_count(rows, branch)
            && report.snapshot_keys_cleared == rows.len()
    &&& report.edges_cleared_attempts == revisions.len()
    &&& report.vector_chunks_deleted == cleaned.deleted
    &&& report.vector_chunks_enqueued_dlq == 0
}

/// The merge that a text names, if it names one.
pub open spec fn named_merge(s: Seq<char>) -> Option<MergeId> {
    match hex::strict_id(s) {
        Some(b) => Some(MergeId(ids::array_of(b))),
        None => None,
    }
}

/// Cancels a merge on a branch for a session. Queries on the branch are held back until everything
/// is undone; where a recorded key is broken the request is refused and they stay held back.
pub fn cancel_merge_request<S: VectorChunkStore>(
    auth: &AuthProvider,
    kv: &mut MemoryKv,
    graph: &mut InMemoryGraph,
    vector: &mut S,
    wal: &mut MutationLog,
    session_id: u64,
    merge_id_hex: &str,
    branch_id: BranchId,
    clear_edges_for: &Vec<NodeRevisionId>,
) -> (r: Result<MergeCancelReport, AuthError>)
    ensures
        r == Err::<MergeCancelReport, AuthError>(AuthError::Unauthorized)
            <==> !auth@.contains_key(session_id),
        r is Err ==> r->Err_0 == AuthError::Unauthorized || r->Err_0 == AuthError::InvalidInput,
        r is Err ==> final(vector).chunks() == old(vector).chunks() && final(vector).asked() == old(
            vector,
        ).asked(),
        r is Err ==> final(wal)@ == old(wal)@,
        !auth@.contains_key(session_id) || named_merge(merge_id_hex@) is None ==> r is Err
            && final(kv)@ == old(kv)@ && final(graph)@ == old(graph)@,
        auth@.contains_key(session_id) && named_merge(merge_id_hex@) is Some ==> (r is Err
            <==> merge_control::snapshot_broken(
            merge_control::batches_purged(
                held_back(old(kv)@, branch_id),
                named_merge(merge_id_hex@)->0,
            ),
            named_merge(merge_id_hex@)->0,
        )),
        auth@.contains_key(session_id) && named_merge(merge_id_hex@) is Some && r is Err
            ==> merge_control::cancelled(
            held_back(old(kv)@, branch_id),
            old(graph)@,
            named_merge(merge_id_hex@)->0,
            branch_id,
            clear_edges_for@,
            final(kv)@,
            final(graph)@,
        ),
        r is Ok ==> cancelled_for_good(
            held_back(old(kv)@, branch_id),
            old(graph)@,
            named_merge(merge_id_hex@)->0,
            branch_id,
            clear_edges_for@,
            final(kv)@,
            final(graph)@,
        ),
        r matches Ok(report) ==> {
            let told = vector_store::answers_since(final(vector).asked(), old(vector).asked());
            let cleaned = merge_control::chunks_cleaned(
                final(graph)@,
                old(vector).chunks(),
                told,
                clear_edges_for@,
            );
            &&& Some(report.merge_id) == named_merge(merge_id_hex@)
            &&& reported(
                held_back(old(kv)@, branch_id),
                branch_id,
                clear_edges_for@,
                cleaned,
                report,
            )
            &&& final(vector).chunks() == cleaned.left
            &&& final(vector).asked() == old(vector).asked() + cleaned.asked
            &&& merge_control::answered(*old(vector), cleaned.asked)
        },
        r is Ok && old(wal)@.len() >= u64::MAX ==> final(wal)@ == old(wal)@,
        r is Ok && old(wal)@.len() < u64::MAX ==> final(wal)@.len() == old(wal)@.len() + 1
            && final(wal)@.drop_last() == old(wal)@ && wal::cancelled_record(
            final(wal)@.last(),
            named_merge(merge_id_hex@)->0,
        ),
{
    match auth.require_session(session_id) {
        Ok(_) => {},
        Err(e) => {
            return Err(e);
        },
    }
    let merge_id = match parse_strict_id(merge_id_hex) {
        Some(a) => MergeId(a),
        None => {
            return Err(AuthError::InvalidInput);
        },
    };
    proof {
        ids::lemma_array_of(merge_id.0);
    }
    let barrier = MergeRecoveryGate::new();
    barrier.begin_rollback(kv, branch_id);
    let report = match MergeControl::new().cancel_merge(
        kv,
        merge_id,
        branch_id,
        graph,
        vector,
        None,
        clear_edges_for,
    ) {
        Ok(report) => report,
        Err(_) => {
            return Err(AuthError::InvalidInput);
        },
    };
    let ghost undone = kv@;
    let ghost held = held_back(old(kv)@, branch_id);
    let ghost rows = choose|rows: Seq<(String, Vec<u8>)>| #[trigger]
        kv::scanned(
            merge_control::batches_purged(held, merge_id),
            merge_control::snapshot_prefix(merge_id),
            rows,
        ) && report.restored_bindings == merge_control::restored_count(rows, branch_id)
            && report.snapshot_keys_cleared == rows.len();
    assert(kv::scanned(
        merge_control::batches_purged(held, merge_id),
        merge_control::snapshot_prefix(merge_id),
        rows,
    ));
    MergeSagaOrchestrator::new().purge_merge_saga_state(kv, merge_id);
    MergeContext::remove(kv, merge_id);
    let _ = append_merge_cancelled_marker(wal, merge_id);
    barrier.end_rollback(kv, branch_id);
    assert(kv@ == cancel_settled(undone, merge_id, branch_id));
    assert(merge_control::cancelled(
        held,
        old(graph)@,
        merge_id,
        branch_id,
        clear_edges_for@,
        undone,
        graph@,
    ));
    Ok(report)
}

/// After a merge was cancelled nothing holds queries on the branch back, and neither the merge's
/// context nor the phase it was in is on record. Forgetting its steps changes no binding, and no lock
/// of any branch: those are as undoing the merge left them.
pub proof fn law_cancelled_request_settles(
    m: Map<Seq<char>, Seq<u8>>,
    merge_id: MergeId,
    branch: BranchId,
    other: BranchId,
    identity: IdentityId,
)
    ensures
        !merge_gate::query_blocked(cancel_settled(m, merge_id, branch), branch),
        !cancel_settled(m, merge_id, branch).contains_key(merge_resume::context_key(merge_id)),
        saga::saga_at(cancel_settled(m, merge_id, branch), merge_id) is None,
        keys::bound(cancel_settled(m, merge_id, branch), other, identity) == keys::bound(
            m,
            other,
            identity,
        ),
        merge_lock::lock_holder(cancel_settled(m, merge_id, branch), other)
            == merge_lock::lock_holder(m, other),
{
    saga::law_purged_saga_is_gone(m, merge_id, merge_id);
    let bound_at = keys::binding_key(other, identity);
    let lock_at = merge_lock::lock_key(other);
    reveal_strlit("ri:");
    reveal_strlit("merge_lock:");
    keys::lemma_binding_key_injective(other, identity, other, identity);
    keys::lemma_tagged_injective("merge_lock:"@, other.0, other.0);
    assert(keys::binding_prefix(other)[0] == 'r');
    lemma_settling_leaves(m, merge_id, branch, bound_at, keys::binding_prefix(other));
    lemma_settling_leaves(m, merge_id, branch, lock_at, "merge_lock:"@);
}

/// Settling leaves alone what neither a saga, a context nor a barrier is kept under.
proof fn lemma_settling_leaves(
    m: Map<Seq<char>, Seq<u8>>,
    merge_id: MergeId,
    branch: BranchId,
    key: Seq<char>,
    prefix: Seq<char>,
)
    requires
        text::begins_with(key, prefix),
        prefix.len() > 6,
        prefix[0] == 'r' || prefix[0] == 'm' && prefix[6] == 'l',
    ensures
        kv::value_at(cancel_settled(m, merge_id, branch), key) == kv::value_at(m, key),
{
    reveal_strlit("saga_state:");
    reveal_strlit("saga_batch:");
    reveal_strlit("saga_payload:");
    reveal_strlit("merge_ctx:");
    reveal_strlit("merge_recovery_block:");
    keys::lemma_tagged_injective("saga_state:"@, merge_id.0, merge_id.0);
    keys::lemma_tagged_injective("merge_ctx:"@, merge_id.0, merge_id.0);
    keys::lemma_tagged_injective("merge_recovery_block:"@, branch.0, branch.0);
    let i: int = if prefix[0] == 'r' {
        0
    } else {
        6
    };
    keys::lemma_prefixes_differ(key, prefix, saga::state_key(merge_id), "saga_state:"@, 0);
    keys::lemma_prefixes_differ(key, prefix, merge_resume::context_key(merge_id), "merge_ctx:"@, i);
    keys::lemma_prefixes_differ(
        key,
        prefix,
        merge_gate::block_key(branch),
        "merge_recovery_block:"@,
        i,
    );
    assert(saga::marker_prefix(merge_id)[0] == 's');
    assert(saga::payload_prefix(merge_id)[0] == 's');
    if text::begins_with(key, saga::marker_prefix(merge_id)) {
        keys::lemma_prefixes_differ(key, prefix, key, saga::marker_prefix(merge_id), 0);
    }
    if text::begins_with(key, saga::payload_prefix(merge_id)) {
        keys::lemma_prefixes_differ(key, prefix, key, saga::payload_prefix(merge_id), 0);
    }
}

/// Ends the merges whose time is over, for a session, and tells how many locks that frees.
pub fn run_merge_ttl_sweep(
    auth: &AuthProvider,
    kv: &mut MemoryKv,
    session_id: u64,
    now_ms: u64,
    ttl_hours: u32,
) -> (r: Result<usize, AuthError>)
    ensures
        r is Ok <==> auth@.contains_key(session_id),
        r is Err ==> r->Err_0 == AuthError::Unauthorized && final(kv)@ == old(kv)@,
        r matches Ok(n) ==> exists|locks: Seq<(BranchId, MergeId)>|
            merge_lock::locks_on_record(old(kv)@, locks) && (final(kv)@, n as nat) == #[trigger] merge_lock::swept(
                old(kv)@,
                locks,
                now_ms,
                ttl_hours,
            ),
        r is Ok ==> forall|b: BranchId, id: MergeId|
            #[trigger] kv::value_at(final(kv)@, merge_lock::lock_key(b)) == Some(id.0@) ==> !#[trigger] merge_lock::ttl_expired(
                final(kv)@,
                id,
                now_ms,
                ttl_hours,
            ),
{
    match auth.require_session(session_id) {
        Ok(_) => Ok(sweep_all_expired_merge_intents(kv, now_ms, ttl_hours)),
        Err(e) => Err(e),
    }
}

} // verus!
