use cis_core::chunk::chunk_id;
use cis_core::graph::{
    EdgeResolution, EdgeType, GraphEdge, InMemoryGraph, Language, NodeIdentity, NodeKind,
    NodeRevision, RevisionStatus, SourceSpan, SourceType,
};
use cis_core::ids::{BranchId, IdentityId, MergeId, NodeRevisionId};
use cis_core::kv::{CasError, MemoryKv};
use cis_core::merge_control::{MergeCancelError, MergeControl};
use cis_core::merge_gate::MergeRecoveryGate;
use cis_core::merge_lock::{
    acquire_merge_lock, merge_lock_holder, merge_started_key, record_merge_started_ms,
    release_merge_lock, sweep_all_expired_merge_intents, sweep_expired_merge_intents,
};
use cis_core::merge_preflight::{MergePreflight, MergePreflightError};
use cis_core::merge_saga_batch::{
    apply_saga_edge_batch, compensate_saga_edge_batches, load_saga_edge_batches,
    persist_saga_edge_batch, SagaEdgeBatch,
};
use cis_core::optimistic_patcher::{OptimisticPatchError, OptimisticPatcher};
use cis_core::path_lease::{LeaseError, PathLeaseManager, SessionId, SpeculativePathTracker};
use cis_core::reconciliation::ReconciliationEngine;
use cis_core::revision_index::RevisionIndex;
use cis_core::saga::{purge_saga_edge_payloads, MergeSagaOrchestrator, SagaPhase};
use cis_core::vector_cleanup_queue::VectorCleanupQueue;
use cis_core::vector_store::{FlakyVectorStore, InMemoryVectorStore};
use cis_core::wal::{MutationIndex, MutationKind, MutationLog, MutationPhase, MutationRecord};

fn revision(
    revision_id: NodeRevisionId,
    identity_id: IdentityId,
    branch_id: BranchId,
    parent: Option<NodeRevisionId>,
) -> NodeRevision {
    NodeRevision {
        revision_id,
        identity_id,
        branch_id,
        status: RevisionStatus::Active,
        qualified_name: "f".into(),
        file_path: "a.py".into(),
        body_hash: [9u8; 32],
        signature_hash: [8u8; 32],
        language: Language::Python,
        parent_revision_id: parent,
        rename_source_id: None,
        tombstoned_at_ms: None,
        span: SourceSpan::unknown(),
    }
}

fn edge(edge_id: [u8; 16], ty: EdgeType, source: NodeRevisionId, target: IdentityId) -> GraphEdge {
    GraphEdge {
        edge_id,
        ty,
        source_revision_id: source,
        target_identity_id: target,
        resolution: EdgeResolution {
            target_signature_hash: [1u8; 32],
            resolver: SourceType::Ast,
            last_validation_ms: 0,
        },
        anchor: SourceSpan::unknown(),
    }
}

#[test]
fn cancel_restores_ri_clears_lock() {
    let mut kv = MemoryKv::new();
    let branch = BranchId([1u8; 16]);
    let merge_id = MergeId([2u8; 16]);
    let mut ri = RevisionIndex::new(branch, &kv);
    let i = IdentityId([3u8; 16]);
    let r_old = NodeRevisionId([4u8; 16]);
    let r_new = NodeRevisionId([5u8; 16]);
    ri.bind(&mut kv, i, r_old);
    acquire_merge_lock(&mut kv, branch, merge_id).unwrap();
    let mc = MergeControl::new();
    mc.record_premerge_bindings(&mut kv, merge_id, branch, &vec![(i, r_old)]);
    ri.bind(&mut kv, i, r_new);
    assert_eq!(ri.lookup(&kv, i), Some(r_new));
    let mut g = InMemoryGraph::new();
    g.put_identity(NodeIdentity { identity_id: i, kind: NodeKind::Function });
    g.put_revision(revision(r_new, i, branch, Some(r_old)));
    g.replace_edges_for_revision(r_new, vec![edge([7u8; 16], EdgeType::Calls, r_new, i)]).unwrap();
    let mut v = InMemoryVectorStore::new();
    let cid = chunk_id(i, r_new);
    v.upsert(cid);
    let rep = mc
        .cancel_merge(&mut kv, merge_id, branch, &mut g, &mut v, None, &vec![r_new])
        .unwrap();
    let mut restored = RevisionIndex::new(branch, &kv);
    assert_eq!(restored.lookup(&kv, i), Some(r_old));
    assert_eq!(rep.restored_bindings, 1);
    assert!(g.outbound_edges(r_new).is_empty());
    assert!(!v.has(&cid));
    assert!(merge_lock_holder(&kv, branch).is_none());
}

#[test]
fn cancel_enqueues_dlq_when_vector_delete_fails() {
    let mut kv = MemoryKv::new();
    let branch = BranchId([1u8; 16]);
    let merge_id = MergeId([2u8; 16]);
    let i = IdentityId([3u8; 16]);
    let r_old = NodeRevisionId([4u8; 16]);
    let r_new = NodeRevisionId([5u8; 16]);
    let mut ri = RevisionIndex::new(branch, &kv);
    ri.bind(&mut kv, i, r_old);
    acquire_merge_lock(&mut kv, branch, merge_id).unwrap();
    let mc = MergeControl::new();
    mc.record_premerge_bindings(&mut kv, merge_id, branch, &vec![(i, r_old)]);
    ri.bind(&mut kv, i, r_new);
    let mut g = InMemoryGraph::new();
    g.put_identity(NodeIdentity { identity_id: i, kind: NodeKind::Function });
    g.put_revision(revision(r_new, i, branch, Some(r_old)));
    let mut base = InMemoryVectorStore::new();
    let cid = chunk_id(i, r_new);
    base.upsert(cid);
    let mut flaky = FlakyVectorStore::new(base);
    flaky.set_fail_delete(true);
    let mut dlq = VectorCleanupQueue::new();
    let rep = mc
        .cancel_merge(&mut kv, merge_id, branch, &mut g, &mut flaky, Some(&mut dlq), &vec![r_new])
        .unwrap();
    assert_eq!(rep.vector_chunks_enqueued_dlq, 1);
    assert_eq!(dlq.dequeue(), Some(cid));
    assert!(flaky.inner().has(&cid));
}

#[test]
fn gate_roundtrip() {
    let mut kv = MemoryKv::new();
    let g = MergeRecoveryGate::new();
    let b = BranchId([9u8; 16]);
    assert!(!g.is_query_blocked(&kv, b));
    g.begin_rollback(&mut kv, b);
    assert!(g.is_query_blocked(&kv, b));
    assert!(g.any_blocked(&kv));
    g.end_rollback(&mut kv, b);
    assert!(!g.is_query_blocked(&kv, b));
    assert!(!g.any_blocked(&kv));
}

#[test]
fn acquire_release_roundtrip() {
    let mut kv = MemoryKv::new();
    let b = BranchId([3u8; 16]);
    let m = MergeId([4u8; 16]);
    acquire_merge_lock(&mut kv, b, m).unwrap();
    assert_eq!(merge_lock_holder(&kv, b), Some(m));
    assert!(kv.get(&merge_started_key(m)).is_some());
    release_merge_lock(&mut kv, b, m).unwrap();
    assert_eq!(merge_lock_holder(&kv, b), None);
    assert!(kv.get(&merge_started_key(m)).is_none());
}

#[test]
fn ttl_sweep_releases_lock() {
    let mut kv = MemoryKv::new();
    let branch = BranchId([4u8; 16]);
    let mid = MergeId([5u8; 16]);
    acquire_merge_lock(&mut kv, branch, mid).unwrap();
    record_merge_started_ms(&mut kv, mid, 0);
    let ok = sweep_expired_merge_intents(&mut kv, branch, mid, 10_000_000, 2).unwrap();
    assert!(ok);
    assert!(merge_lock_holder(&kv, branch).is_none());
}

#[test]
fn sweep_all_clears_expired() {
    let mut kv = MemoryKv::new();
    let b = BranchId([1u8; 16]);
    let m = MergeId([2u8; 16]);
    acquire_merge_lock(&mut kv, b, m).unwrap();
    record_merge_started_ms(&mut kv, m, 0);
    let n = sweep_all_expired_merge_intents(&mut kv, 10_000_000, 2);
    assert_eq!(n, 1);
    assert!(merge_lock_holder(&kv, b).is_none());
}

#[test]
fn merge_ttl_sweep_clears_stale_lock() {
    let mut kv = MemoryKv::new();
    let b = BranchId([8u8; 16]);
    let m = MergeId([9u8; 16]);
    acquire_merge_lock(&mut kv, b, m).unwrap();
    record_merge_started_ms(&mut kv, m, 0);
    assert_eq!(sweep_all_expired_merge_intents(&mut kv, 86_400_001, 24), 1);
    assert!(merge_lock_holder(&kv, b).is_none());
}

#[test]
fn a_second_merge_does_not_get_the_lock() {
    let mut kv = MemoryKv::new();
    let b = BranchId([1u8; 16]);
    acquire_merge_lock(&mut kv, b, MergeId([2u8; 16])).unwrap();
    assert!(acquire_merge_lock(&mut kv, b, MergeId([3u8; 16])).is_err());
    assert!(release_merge_lock(&mut kv, b, MergeId([3u8; 16])).is_err());
    assert_eq!(merge_lock_holder(&kv, b), Some(MergeId([2u8; 16])));
    assert_eq!(sweep_all_expired_merge_intents(&mut kv, 0, 2), 0);
}

#[test]
fn speculative_forces_release() {
    let mut kv = MemoryKv::new();
    let branch = BranchId([1u8; 16]);
    let m = MergeId([2u8; 16]);
    let mut spec = SpeculativePathTracker::new();
    spec.register("p/x.ts");
    let err = MergePreflight::acquire_lock_then_quiesce_speculative(
        &mut kv,
        branch,
        m,
        &vec!["p/x.ts".into()],
        &spec,
    )
    .unwrap_err();
    assert!(matches!(err, MergePreflightError::SpeculativeConflict { .. }));
    assert!(merge_lock_holder(&kv, branch).is_none());
}

#[test]
fn speculative_refcount_blocks_until_all_patches_gone() {
    let mut kv = MemoryKv::new();
    let branch = BranchId([1u8; 16]);
    let m = MergeId([2u8; 16]);
    let mut spec = SpeculativePathTracker::new();
    spec.register("p/x.ts");
    spec.register("p/x.ts");
    spec.unregister("p/x.ts");
    let err = MergePreflight::acquire_lock_then_quiesce_speculative(
        &mut kv,
        branch,
        m,
        &vec!["p/x.ts".into()],
        &spec,
    )
    .unwrap_err();
    assert!(matches!(err, MergePreflightError::SpeculativeConflict { .. }));
    spec.unregister("p/x.ts");
    MergePreflight::acquire_lock_then_quiesce_speculative(
        &mut kv,
        branch,
        m,
        &vec!["p/x.ts".into()],
        &spec,
    )
    .expect("merge allowed after all speculative refs cleared");
}

#[test]
fn locked_when_merge_holder_differs() {
    let mut kv = MemoryKv::new();
    let branch = BranchId([1u8; 16]);
    let m1 = MergeId([2u8; 16]);
    let m2 = MergeId([3u8; 16]);
    acquire_merge_lock(&mut kv, branch, m1).unwrap();
    let err = MergePreflight::acquire_lock_then_quiesce_speculative(
        &mut kv,
        branch,
        m2,
        &vec![],
        &SpeculativePathTracker::new(),
    )
    .unwrap_err();
    assert!(matches!(err, MergePreflightError::Locked { holder } if holder == m1));
}

#[test]
fn begin_snapshot_happy_path() {
    let mut kv = MemoryKv::new();
    let branch = BranchId([5u8; 16]);
    let mid = MergeId([6u8; 16]);
    let i = IdentityId([7u8; 16]);
    let r = NodeRevisionId([8u8; 16]);
    MergePreflight::begin_with_snapshot(
        &mut kv,
        branch,
        mid,
        &vec!["a.py".into()],
        &SpeculativePathTracker::new(),
        &vec![(i, r)],
    )
    .unwrap();
    assert_eq!(merge_lock_holder(&kv, branch), Some(mid));
    let rows = kv.scan_prefix("msnap:");
    assert_eq!(rows.len(), 1);
}

#[test]
fn batch_apply_then_compensate_restores_prior() {
    let mut g = InMemoryGraph::new();
    let i_src = IdentityId([1u8; 16]);
    let i_tgt = IdentityId([2u8; 16]);
    g.put_identity(NodeIdentity { identity_id: i_src, kind: NodeKind::Function });
    g.put_identity(NodeIdentity { identity_id: i_tgt, kind: NodeKind::Function });
    let r = NodeRevisionId([3u8; 16]);
    g.put_revision(revision(r, i_src, BranchId([0u8; 16]), None));
    let prior = vec![edge([8u8; 16], EdgeType::Uses, r, i_tgt)];
    let _ = g.replace_edges_for_revision(r, prior.clone());
    let batch = SagaEdgeBatch {
        seq: 1,
        target_revision_id: r,
        prior_edges: prior,
        edges: vec![edge([9u8; 16], EdgeType::Calls, r, i_tgt)],
    };
    apply_saga_edge_batch(&mut g, &batch).unwrap();
    assert_eq!(g.outbound_edges(r).len(), 1);
    assert_eq!(g.outbound_edges(r)[0].ty, EdgeType::Calls);
    compensate_saga_edge_batches(&mut g, &vec![batch]);
    assert_eq!(g.outbound_edges(r).len(), 1);
    assert_eq!(g.outbound_edges(r)[0].ty, EdgeType::Uses);
}

#[test]
fn saga_payload_roundtrip_kv() {
    let mut kv = MemoryKv::new();
    let mid = MergeId([7u8; 16]);
    let batch = SagaEdgeBatch {
        seq: 2,
        target_revision_id: NodeRevisionId([3u8; 16]),
        prior_edges: vec![],
        edges: vec![],
    };
    persist_saga_edge_batch(&mut kv, mid, &batch);
    let loaded = load_saga_edge_batches(&kv, mid);
    assert_eq!(loaded.len(), 1);
    assert_eq!(loaded[0].seq, 2);
    purge_saga_edge_payloads(&mut kv, mid);
    assert!(load_saga_edge_batches(&kv, mid).is_empty());
}

#[test]
fn saga_payload_keeps_its_edges() {
    let mut kv = MemoryKv::new();
    let mid = MergeId([7u8; 16]);
    let r = NodeRevisionId([3u8; 16]);
    let batch = SagaEdgeBatch {
        seq: 4,
        target_revision_id: r,
        prior_edges: vec![edge([8u8; 16], EdgeType::Uses, r, IdentityId([2u8; 16]))],
        edges: vec![],
    };
    persist_saga_edge_batch(&mut kv, mid, &batch);
    let loaded = load_saga_edge_batches(&kv, mid);
    assert_eq!(loaded[0].target_revision_id, r);
    assert_eq!(loaded[0].prior_edges.len(), 1);
    assert_eq!(loaded[0].prior_edges[0].edge_id, [8u8; 16]);
    assert_eq!(loaded[0].prior_edges[0].ty, EdgeType::Uses);
    assert_eq!(loaded[0].prior_edges[0].target_identity_id, IdentityId([2u8; 16]));
}

#[test]
fn merge_blocked_while_spec_active() {
    let mut patcher = OptimisticPatcher::new(PathLeaseManager::new(), SpeculativePathTracker::new());
    let mut kv = MemoryKv::new();
    let branch = BranchId([9u8; 16]);
    let mid = MergeId([10u8; 16]);
    patcher.apply_speculative(SessionId(1), vec!["src/m.rs".into()], None).unwrap();
    let err = MergePreflight::begin_with_snapshot(
        &mut kv,
        branch,
        mid,
        &vec!["src/m.rs".into()],
        patcher.spec_tracker(),
        &vec![],
    )
    .unwrap_err();
    assert!(matches!(err, MergePreflightError::SpeculativeConflict { .. }));
    assert!(merge_lock_holder(&kv, branch).is_none());
    patcher.revert(1, SessionId(1)).unwrap();
    MergePreflight::begin_with_snapshot(
        &mut kv,
        branch,
        mid,
        &vec!["src/m.rs".into()],
        patcher.spec_tracker(),
        &vec![],
    )
    .unwrap();
    assert_eq!(merge_lock_holder(&kv, branch), Some(mid));
}

#[test]
fn speculative_blocked_while_merge_lock_held() {
    let mut patcher = OptimisticPatcher::new(PathLeaseManager::new(), SpeculativePathTracker::new());
    let mut kv = MemoryKv::new();
    let branch = BranchId([11u8; 16]);
    let mid = MergeId([12u8; 16]);
    acquire_merge_lock(&mut kv, branch, mid).unwrap();
    let err = patcher
        .apply_speculative(SessionId(1), vec!["src/m.rs".into()], Some((&kv, branch)))
        .unwrap_err();
    assert_eq!(err, OptimisticPatchError::MergeLocked);
    assert!(!patcher.spec_tracker().intersects(&vec!["src/m.rs".into()]));
    release_merge_lock(&mut kv, branch, mid).unwrap();
    patcher
        .apply_speculative(SessionId(1), vec!["src/m.rs".into()], Some((&kv, branch)))
        .unwrap();
}

#[test]
fn partial_acquire_conflict_releases_earlier_leases() {
    let mut leases = PathLeaseManager::new();
    // Hold "b.rs" as another session so multi-path acquire fails mid-loop
    // after "a.rs" is acquired (paths are sorted).
    leases.acquire("b.rs", SessionId(99)).unwrap();
    let mut patcher = OptimisticPatcher::new(leases, SpeculativePathTracker::new());
    let err = patcher
        .apply_speculative(SessionId(1), vec!["b.rs".into(), "a.rs".into()], None)
        .unwrap_err();
    assert!(matches!(err, OptimisticPatchError::Lease(_)));
    assert!(
        patcher.leases().holder("a.rs").is_none(),
        "a.rs lease must be released after mid-acquire conflict"
    );
    assert_eq!(patcher.leases().holder("b.rs"), Some(SessionId(99)));
    assert_eq!(patcher.open_patch_count(), 0);
    assert!(!patcher.spec_tracker().intersects(&vec!["a.rs".into(), "b.rs".into()]));
}

#[test]
fn session_mismatch_leaves_patch_intact() {
    let mut patcher = OptimisticPatcher::new(PathLeaseManager::new(), SpeculativePathTracker::new());
    let id = patcher.apply_speculative(SessionId(1), vec!["a.rs".into()], None).unwrap();
    assert_eq!(
        patcher.revert(id, SessionId(99)),
        Err(OptimisticPatchError::SessionMismatch(id))
    );
    assert_eq!(patcher.open_patch_count(), 1);
    assert_eq!(
        patcher.promote(id, SessionId(99)),
        Err(OptimisticPatchError::SessionMismatch(id))
    );
    assert_eq!(patcher.open_patch_count(), 1);
    patcher.revert(id, SessionId(1)).unwrap();
    assert_eq!(patcher.open_patch_count(), 0);
    assert_eq!(patcher.revert(id, SessionId(1)), Err(OptimisticPatchError::UnknownPatch(id)));
}

#[test]
fn pending_patch_for_path_returns_newest() {
    let mut patcher = OptimisticPatcher::new(PathLeaseManager::new(), SpeculativePathTracker::new());
    let root = "/repo";
    let abs = "/repo/shared.py";
    let a = patcher.apply_speculative(SessionId(1), vec![abs.into()], None).unwrap();
    let b = patcher.apply_speculative(SessionId(1), vec![abs.into()], None).unwrap();
    assert!(b > a);
    assert_eq!(patcher.pending_patch_for_path("shared.py", root), Some(b));
    assert_eq!(patcher.open_patches_for_path("shared.py", root), vec![a, b]);
    assert_eq!(patcher.newer_open_patch_on_paths(a), Some(b));
    assert_eq!(patcher.newer_open_patch_on_paths(b), None);
}

fn mk_row(phase: MutationPhase) -> MutationRecord {
    let r = NodeRevisionId([5u8; 16]);
    MutationRecord {
        log_id: 0,
        kind: MutationKind::Single,
        phase,
        affected_revisions: vec![r],
        payload_checksum: [0u8; 32],
        created_at_ms: 0,
    }
}

#[test]
fn saga_cleaned_then_index_rebuilt() {
    let mut wal = MutationLog::new();
    let mut kv = MemoryKv::new();
    let saga = MergeSagaOrchestrator::new();
    let mid = MergeId([8u8; 16]);
    saga.persist(&mut kv, mid, SagaPhase::Intent);
    let engine = ReconciliationEngine::new(saga);
    wal.append(mk_row(MutationPhase::Pending)).unwrap();
    let mut idx = MutationIndex::new();
    let rep = engine.reconcile_on_startup(&mut kv, &wal, &mut idx);
    assert_eq!(rep.sagas_compensated, 1);
    assert!(rep.mutation_index_entries >= 1);
    assert_eq!(rep.in_flight_wal_records, 1);
}

#[test]
fn saga_fault_injector_skips_persist() {
    let mut kv = MemoryKv::new();
    let o = MergeSagaOrchestrator::losing_writes();
    let mid = MergeId([13u8; 16]);
    o.persist(&mut kv, mid, SagaPhase::Intent);
    assert!(o.load(&kv, mid).is_none());
}

#[test]
fn roundtrip() {
    let mut kv = MemoryKv::new();
    let o = MergeSagaOrchestrator::new();
    let mid = MergeId([11u8; 16]);
    o.persist(&mut kv, mid, SagaPhase::EdgeBatch { seq: 3 });
    assert_eq!(o.load(&kv, mid), Some(SagaPhase::EdgeBatch { seq: 3 }));
}

#[test]
fn saga_batch_idempotency_key() {
    let mut kv = MemoryKv::new();
    let o = MergeSagaOrchestrator::new();
    let mid = MergeId([12u8; 16]);
    o.persist_batch_marker(&mut kv, mid, 7);
    assert!(kv.get(&MergeSagaOrchestrator::batch_key(mid, 7)).is_some());
}

#[test]
fn a_batch_is_an_object_with_its_fields() {
    let mut kv = MemoryKv::new();
    let mid = MergeId([7u8; 16]);
    let r = NodeRevisionId([3u8; 16]);
    let batch = SagaEdgeBatch {
        seq: 4,
        target_revision_id: r,
        prior_edges: vec![],
        edges: vec![edge([9u8; 16], EdgeType::RenamedFrom, r, IdentityId([2u8; 16]))],
    };
    persist_saga_edge_batch(&mut kv, mid, &batch);
    let key = format!("saga_payload:{}:4", "07".repeat(16));
    let v: serde_json::Value = serde_json::from_slice(&kv.get(&key).unwrap()).unwrap();
    assert_eq!(v["seq"], 4);
    assert_eq!(v["target_revision_id"][15], 3);
    assert_eq!(v["prior_edges"].as_array().unwrap().len(), 0);
    let e = &v["edges"][0];
    assert_eq!(e["ty"], "RenamedFrom");
    assert_eq!(e["edge_id"][0], 9);
    assert_eq!(e["resolution"]["resolver"], "Ast");
    assert_eq!(e["resolution"]["target_signature_hash"][31], 1);
    assert_eq!(e["anchor"]["end_col"], 0);
}

#[test]
fn batches_are_read_in_any_layout() {
    let mut kv = MemoryKv::new();
    let mid = MergeId([7u8; 16]);
    let sixteen = |n: u8| format!("[{}]", vec![n.to_string(); 16].join(","));
    let one = |seq: u32, ty: &str| {
        format!(
            "{{ \"edges\": [{{\"edge_id\": {e}, \"ty\": \"{ty}\", \"source_revision_id\": {r},\n \
             \"target_identity_id\": {t}, \"resolution\": {{\"target_signature_hash\": [{h}], \
             \"resolver\": \"Lsp\", \"last_validation_ms\": 12}}, \"anchor\": {{\"start_line\": 1, \
             \"start_col\": 2, \"end_line\": 3, \"end_col\": 4}}}}], \"prior_edges\": [], \
             \"more\": null, \"target_revision_id\": {r}, \"seq\": {seq} }}",
            e = sixteen(8),
            r = sixteen(3),
            t = sixteen(2),
            h = vec!["5"; 32].join(","),
        )
    };
    let prefix = format!("saga_payload:{}:", "07".repeat(16));
    kv.set(&format!("{prefix}2"), one(2, "Uses").into_bytes());
    kv.set(&format!("{prefix}1"), format!("[1,{},[],[]]", sixteen(6)).into_bytes());
    kv.set(&format!("{prefix}3"), one(3, "Nonsense").into_bytes());
    kv.set(&format!("{prefix}4"), b"{\"seq\":4}".to_vec());
    kv.set(&format!("{prefix}5"), b"not json".to_vec());
    let got = load_saga_edge_batches(&kv, mid);
    assert_eq!(got.len(), 2);
    assert_eq!((got[0].seq, got[0].target_revision_id), (1, NodeRevisionId([6u8; 16])));
    let e = &got[1].edges[0];
    assert_eq!(got[1].seq, 2);
    assert_eq!((e.edge_id, e.ty), ([8u8; 16], EdgeType::Uses));
    assert_eq!(e.resolution.resolver, SourceType::Lsp);
    assert_eq!((e.resolution.target_signature_hash, e.resolution.last_validation_ms), ([5u8; 32], 12));
    assert_eq!((e.anchor.start_line, e.anchor.end_col), (1, 4));
}

#[test]
fn a_second_round_of_compensation_finds_nothing() {
    let mut kv = MemoryKv::new();
    let saga = MergeSagaOrchestrator::new();
    let dropped = MergeId([1u8; 16]);
    let done = MergeId([2u8; 16]);
    saga.persist(&mut kv, dropped, SagaPhase::Intent);
    saga.persist_batch_marker(&mut kv, dropped, 1);
    saga.persist(&mut kv, done, SagaPhase::Committed);
    acquire_merge_lock(&mut kv, BranchId([3u8; 16]), dropped).unwrap();
    acquire_merge_lock(&mut kv, BranchId([4u8; 16]), done).unwrap();
    acquire_merge_lock(&mut kv, BranchId([5u8; 16]), MergeId([9u8; 16])).unwrap();
    assert_eq!(saga.compensate_orphans(&mut kv), 2);
    assert!(saga.load(&kv, dropped).is_none());
    assert_eq!(saga.load(&kv, done), Some(SagaPhase::Committed));
    let left = kv.scan_prefix("").len();
    assert_eq!(saga.compensate_orphans(&mut kv), 0);
    assert_eq!(kv.scan_prefix("").len(), left);
}

#[test]
fn errors_are_told_in_words() {
    let mismatch = || CasError::Mismatch("k".into());
    assert_eq!(mismatch().message(), "cas mismatch: k");
    let locked = MergePreflightError::Locked { holder: MergeId([1u8; 16]) };
    assert_eq!(
        locked.message(),
        "423 Locked \u{2014} merge in progress (blocking merge_id present)"
    );
    let patched = MergePreflightError::SpeculativeConflict { paths: vec!["a.rs".into()] };
    assert_eq!(
        patched.message(),
        "409 Conflict \u{2014} speculative patches on merge paths (EI-5)"
    );
    assert_eq!(MergePreflightError::Cas(mismatch()).message(), "cas mismatch: k");
    assert_eq!(MergeCancelError::Cas(mismatch()).message(), "cas mismatch: k");
    assert_eq!(MergeCancelError::BadSnapshotKey.message(), "parse msnap key");
    let leased = LeaseError::Conflict { holder: SessionId(7) };
    let words = "409 conflict \u{2014} path leased by session SessionId(7)";
    assert_eq!(leased.message(), words);
    assert_eq!(OptimisticPatchError::Lease(leased).message(), words);
    assert_eq!(
        OptimisticPatchError::MergeLocked.message(),
        "423 Locked \u{2014} merge preflight in progress"
    );
    assert_eq!(OptimisticPatchError::UnknownPatch(3).message(), "unknown patch 3");
    assert_eq!(OptimisticPatchError::SessionMismatch(3).message(), "session mismatch for patch 3");
    let superseded = OptimisticPatchError::Superseded { patch_id: 3, newer_patch_id: 12 };
    assert_eq!(
        superseded.message(),
        "409 conflict \u{2014} patch 3 superseded by newer open patch 12"
    );
}
