use cis_core::bindings::scan_branch_bindings;
use cis_core::graph::{
    EdgeResolution, EdgeType, GraphEdge, InMemoryGraph, Language, NodeIdentity, NodeKind,
    NodeRevision, RevisionStatus, SourceSpan, SourceType,
};
use cis_core::ids::{BranchId, IdentityId, MergeId, NodeRevisionId};
use cis_core::keys::revision_binding_kv_key;
use cis_core::kv::MemoryKv;
use cis_core::merge_classify::{
    classify_identity_stub, detect_renames, phase_a_classify, phase_a_for_merge, run_phase_a_classify,
    ClassifiedMergeIdentity, MergeIdentityClass, MergeStrategy, MergeWorkflowStatus,
};
use cis_core::merge_control::MergeControl;
use cis_core::merge_edges::phase_c_reconcile_edges;
use cis_core::merge_gate::MergeRecoveryGate;
use cis_core::merge_lock::acquire_merge_lock;
use cis_core::merge_promote::{affected_paths_for_classified, phase_b_promote};
use cis_core::saga::{MergeSagaOrchestrator, SagaPhase};
use cis_core::vector_store::InMemoryVectorStore;
use cis_core::wal::{
    append_merge_cancelled_after_control, append_merge_cancelled_marker, append_merge_committed,
    MutationIndex, MutationKind, MutationLog,
};

fn iid(b: u8) -> IdentityId {
    let mut x = [0u8; 16];
    x[15] = b;
    IdentityId(x)
}

fn rid(b: u8) -> NodeRevisionId {
    let mut x = [0u8; 16];
    x[14] = b;
    NodeRevisionId(x)
}

fn make_rev(
    revision_id: NodeRevisionId,
    identity_id: IdentityId,
    branch_id: BranchId,
    qn: &str,
    body_hash: [u8; 32],
) -> NodeRevision {
    NodeRevision {
        revision_id,
        identity_id,
        branch_id,
        status: RevisionStatus::Active,
        qualified_name: qn.into(),
        file_path: "test.py".into(),
        body_hash,
        signature_hash: [0u8; 32],
        language: Language::Python,
        parent_revision_id: None,
        rename_source_id: None,
        span: SourceSpan::unknown(),
        tombstoned_at_ms: None,
    }
}

fn bind(kv: &mut MemoryKv, branch: BranchId, identity: IdentityId, rev: NodeRevisionId) {
    let key = revision_binding_kv_key(branch, identity);
    kv.set(&key, rev.0.to_vec());
}

#[test]
fn merge_cancelled_wal_appends() {
    let mut wal = MutationLog::new();
    let mid = MergeId([3u8; 16]);
    let id = append_merge_cancelled_marker(&mut wal, mid).unwrap();
    let rec = wal.get(id).unwrap();
    assert!(matches!(
        rec.kind,
        MutationKind::MergeCancelled { merge_id: m } if m == mid
    ));
    let mut idx = MutationIndex::new();
    idx.register_new_record(rec);
    assert_eq!(idx.len(), 0);
}

#[test]
fn phase_a_marks_conflicts_and_renames() {
    let items = vec![
        ("a".into(), MergeIdentityClass::Clean),
        (
            "b".into(),
            classify_identity_stub(true, true, false),
        ),
        ("c".into(), classify_identity_stub(false, false, true)),
    ];
    let rep = run_phase_a_classify(&items);
    assert_eq!(rep.resolved_count, 2);
    assert_eq!(rep.conflicts, vec!["b"]);
    assert_eq!(rep.rename_detections, vec!["c"]);
    assert_eq!(rep.status, MergeWorkflowStatus::RequiresResolution);
}

#[test]
fn cancel_merge_recovery_appends_merge_cancelled_after_gate_and_saga_purge() {
    let mut wal = MutationLog::new();
    let mut kv = MemoryKv::new();
    let branch = BranchId([1u8; 16]);
    let merge_id = MergeId([2u8; 16]);
    acquire_merge_lock(&mut kv, branch, merge_id).unwrap();
    let mc = MergeControl::new();
    mc.record_premerge_bindings(&mut kv, merge_id, branch, &vec![]);

    let saga = MergeSagaOrchestrator::new();
    saga.persist(&mut kv, merge_id, SagaPhase::EdgeBatch { seq: 1 });
    saga.persist_batch_marker(&mut kv, merge_id, 1);

    let gate = MergeRecoveryGate::new();
    gate.begin_rollback(&mut kv, branch);
    assert!(gate.is_query_blocked(&kv, branch));

    let mut g = InMemoryGraph::new();
    mc.cancel_merge(
        &mut kv,
        merge_id,
        branch,
        &mut g,
        &mut InMemoryVectorStore::new(),
        None,
        &vec![],
    )
    .unwrap();

    assert_eq!(saga.compensate_orphans(&mut kv), 1);
    assert!(saga.load(&kv, merge_id).is_none());
    assert!(kv
        .get(&MergeSagaOrchestrator::batch_key(merge_id, 1))
        .is_none());

    append_merge_cancelled_after_control(&mut wal, merge_id, true).unwrap();

    gate.end_rollback(&mut kv, branch);
    assert!(!gate.is_query_blocked(&kv, branch));

    assert!(wal.iter_all().iter().any(|r| {
        matches!(
            r.kind,
            MutationKind::MergeCancelled { merge_id: m } if m == merge_id
        )
    }));
}

// Phase A — real classifier tests

#[test]
fn phase_a_clean_when_unchanged() {
    let mut kv = MemoryKv::new();
    let mut g = InMemoryGraph::new();
    let base = BranchId([1u8; 16]);
    let ours = BranchId([2u8; 16]);
    let theirs = BranchId([3u8; 16]);

    let i1 = iid(1);
    let r1 = rid(1);
    let body = [10u8; 32];
    g.put_identity(NodeIdentity { identity_id: i1, kind: NodeKind::Function });
    g.put_revision(make_rev(r1, i1, base, "f", body));

    bind(&mut kv, base, i1, r1);
    bind(&mut kv, ours, i1, r1);
    bind(&mut kv, theirs, i1, r1);

    let result = phase_a_classify(&g, &kv, ours, theirs, base);
    assert_eq!(result.classified.len(), 1);
    assert_eq!(result.classified[0].class, MergeIdentityClass::Clean);
    assert_eq!(result.report.resolved_count, 1);
    assert_eq!(result.report.status, MergeWorkflowStatus::Ready);
}

#[test]
fn phase_a_ours_only() {
    let mut kv = MemoryKv::new();
    let mut g = InMemoryGraph::new();
    let base = BranchId([1u8; 16]);
    let ours = BranchId([2u8; 16]);
    let theirs = BranchId([3u8; 16]);

    let i1 = iid(1);
    let r_base = rid(1);
    let r_ours = rid(2);
    let base_body = [10u8; 32];
    let ours_body = [20u8; 32];

    g.put_identity(NodeIdentity { identity_id: i1, kind: NodeKind::Function });
    g.put_revision(make_rev(r_base, i1, base, "f", base_body));
    g.put_revision(make_rev(r_ours, i1, ours, "f", ours_body));

    bind(&mut kv, base, i1, r_base);
    bind(&mut kv, ours, i1, r_ours);
    bind(&mut kv, theirs, i1, r_base);

    let result = phase_a_classify(&g, &kv, ours, theirs, base);
    assert_eq!(result.classified[0].class, MergeIdentityClass::OursOnly);
    assert_eq!(result.report.resolved_count, 1);
}

#[test]
fn phase_a_theirs_only() {
    let mut kv = MemoryKv::new();
    let mut g = InMemoryGraph::new();
    let base = BranchId([1u8; 16]);
    let ours = BranchId([2u8; 16]);
    let theirs = BranchId([3u8; 16]);

    let i1 = iid(1);
    let r_base = rid(1);
    let r_theirs = rid(3);
    let base_body = [10u8; 32];
    let theirs_body = [30u8; 32];

    g.put_identity(NodeIdentity { identity_id: i1, kind: NodeKind::Function });
    g.put_revision(make_rev(r_base, i1, base, "f", base_body));
    g.put_revision(make_rev(r_theirs, i1, theirs, "f", theirs_body));

    bind(&mut kv, base, i1, r_base);
    bind(&mut kv, ours, i1, r_base);
    bind(&mut kv, theirs, i1, r_theirs);

    let result = phase_a_classify(&g, &kv, ours, theirs, base);
    assert_eq!(result.classified[0].class, MergeIdentityClass::TheirsOnly);
}

#[test]
fn affected_paths_for_classified_collects_revision_paths() {
    let mut kv = MemoryKv::new();
    let mut g = InMemoryGraph::new();
    let base = BranchId([1u8; 16]);
    let ours = BranchId([2u8; 16]);
    let theirs = BranchId([3u8; 16]);

    let i1 = iid(1);
    let i2 = iid(2);
    let r1_base = rid(1);
    let r1_ours_id = rid(2);
    let mut r1_ours = make_rev(r1_ours_id, i1, ours, "f1", [20u8; 32]);
    r1_ours.file_path = "a.py".into();
    let r2_base = rid(3);
    let r2_theirs_id = rid(4);
    let mut r2_theirs = make_rev(r2_theirs_id, i2, theirs, "f2", [30u8; 32]);
    r2_theirs.file_path = "b.py".into();

    g.put_identity(NodeIdentity {
        identity_id: i1,
        kind: NodeKind::Function,
    });
    g.put_identity(NodeIdentity {
        identity_id: i2,
        kind: NodeKind::Function,
    });
    g.put_revision(make_rev(r1_base, i1, base, "f1", [10u8; 32]));
    g.put_revision(r1_ours);
    g.put_revision(make_rev(r2_base, i2, base, "f2", [10u8; 32]));
    g.put_revision(r2_theirs);

    bind(&mut kv, base, i1, r1_base);
    bind(&mut kv, ours, i1, r1_ours_id);
    bind(&mut kv, base, i2, r2_base);
    bind(&mut kv, ours, i2, r2_base);
    bind(&mut kv, theirs, i2, r2_theirs_id);

    let result = phase_a_classify(&g, &kv, ours, theirs, base);
    let paths = affected_paths_for_classified(&g, &result.classified);
    assert!(paths.contains(&"a.py".to_string()));
    assert!(paths.contains(&"b.py".to_string()));
}

#[test]
fn phase_a_both_modified_unresolved() {
    let mut kv = MemoryKv::new();
    let mut g = InMemoryGraph::new();
    let base = BranchId([1u8; 16]);
    let ours = BranchId([2u8; 16]);
    let theirs = BranchId([3u8; 16]);

    let i1 = iid(1);
    let r_base = rid(1);
    let r_ours = rid(2);
    let r_theirs = rid(3);

    g.put_identity(NodeIdentity { identity_id: i1, kind: NodeKind::Function });
    g.put_revision(make_rev(r_base, i1, base, "f", [10u8; 32]));
    g.put_revision(make_rev(r_ours, i1, ours, "f", [20u8; 32]));
    g.put_revision(make_rev(r_theirs, i1, theirs, "f", [30u8; 32]));

    bind(&mut kv, base, i1, r_base);
    bind(&mut kv, ours, i1, r_ours);
    bind(&mut kv, theirs, i1, r_theirs);

    let result = phase_a_classify(&g, &kv, ours, theirs, base);
    assert_eq!(result.classified[0].class, MergeIdentityClass::BothModifiedUnresolved);
    assert_eq!(result.report.status, MergeWorkflowStatus::RequiresResolution);
    assert_eq!(result.report.conflicts.len(), 1);
}

#[test]
fn phase_a_both_modified_same_content() {
    let mut kv = MemoryKv::new();
    let mut g = InMemoryGraph::new();
    let base = BranchId([1u8; 16]);
    let ours = BranchId([2u8; 16]);
    let theirs = BranchId([3u8; 16]);

    let i1 = iid(1);
    let r_base = rid(1);
    let r_ours = rid(2);
    let r_theirs = rid(3);
    let same_body = [20u8; 32];

    g.put_identity(NodeIdentity { identity_id: i1, kind: NodeKind::Function });
    g.put_revision(make_rev(r_base, i1, base, "f", [10u8; 32]));
    g.put_revision(make_rev(r_ours, i1, ours, "f", same_body));
    g.put_revision(make_rev(r_theirs, i1, theirs, "f", same_body));

    bind(&mut kv, base, i1, r_base);
    bind(&mut kv, ours, i1, r_ours);
    bind(&mut kv, theirs, i1, r_theirs);

    let result = phase_a_classify(&g, &kv, ours, theirs, base);
    assert_eq!(result.classified[0].class, MergeIdentityClass::BothModifiedSame);
    assert_eq!(result.report.resolved_count, 1);
}

#[test]
fn phase_a_new_in_theirs_only() {
    let mut kv = MemoryKv::new();
    let mut g = InMemoryGraph::new();
    let base = BranchId([1u8; 16]);
    let ours = BranchId([2u8; 16]);
    let theirs = BranchId([3u8; 16]);

    let i1 = iid(1);
    let r_theirs = rid(3);

    g.put_identity(NodeIdentity { identity_id: i1, kind: NodeKind::Function });
    g.put_revision(make_rev(r_theirs, i1, theirs, "new_fn", [30u8; 32]));

    bind(&mut kv, theirs, i1, r_theirs);

    let result = phase_a_classify(&g, &kv, ours, theirs, base);
    assert_eq!(result.classified[0].class, MergeIdentityClass::TheirsNew);
    assert_eq!(result.report.resolved_count, 1);
}

#[test]
fn phase_a_multi_identity_mixed() {
    let mut kv = MemoryKv::new();
    let mut g = InMemoryGraph::new();
    let base = BranchId([1u8; 16]);
    let ours = BranchId([2u8; 16]);
    let theirs = BranchId([3u8; 16]);

    // i1: clean (unchanged)
    let i1 = iid(1);
    let r1 = rid(1);
    g.put_identity(NodeIdentity { identity_id: i1, kind: NodeKind::Function });
    g.put_revision(make_rev(r1, i1, base, "clean_fn", [10u8; 32]));
    bind(&mut kv, base, i1, r1);
    bind(&mut kv, ours, i1, r1);
    bind(&mut kv, theirs, i1, r1);

    // i2: ours only modified
    let i2 = iid(2);
    let r2b = rid(2);
    let r2o = rid(12);
    g.put_identity(NodeIdentity { identity_id: i2, kind: NodeKind::Function });
    g.put_revision(make_rev(r2b, i2, base, "ours_mod", [20u8; 32]));
    g.put_revision(make_rev(r2o, i2, ours, "ours_mod", [21u8; 32]));
    bind(&mut kv, base, i2, r2b);
    bind(&mut kv, ours, i2, r2o);
    bind(&mut kv, theirs, i2, r2b);

    // i3: conflict
    let i3 = iid(3);
    let r3b = rid(3);
    let r3o = rid(13);
    let r3t = rid(23);
    g.put_identity(NodeIdentity { identity_id: i3, kind: NodeKind::Function });
    g.put_revision(make_rev(r3b, i3, base, "conflict_fn", [30u8; 32]));
    g.put_revision(make_rev(r3o, i3, ours, "conflict_fn", [31u8; 32]));
    g.put_revision(make_rev(r3t, i3, theirs, "conflict_fn", [32u8; 32]));
    bind(&mut kv, base, i3, r3b);
    bind(&mut kv, ours, i3, r3o);
    bind(&mut kv, theirs, i3, r3t);

    // i4: new in theirs
    let i4 = iid(4);
    let r4t = rid(24);
    g.put_identity(NodeIdentity { identity_id: i4, kind: NodeKind::Function });
    g.put_revision(make_rev(r4t, i4, theirs, "new_theirs", [40u8; 32]));
    bind(&mut kv, theirs, i4, r4t);

    let result = phase_a_classify(&g, &kv, ours, theirs, base);
    assert_eq!(result.classified.len(), 4);
    assert_eq!(result.report.resolved_count, 3);
    assert_eq!(result.report.conflicts.len(), 1);
    assert_eq!(result.report.status, MergeWorkflowStatus::RequiresResolution);
}

// Phase B — promotion tests

#[test]
fn phase_b_promotes_ours_only() {
    let mut kv = MemoryKv::new();
    let mut g = InMemoryGraph::new();
    let target = BranchId([9u8; 16]);

    let i1 = iid(1);
    let r_ours = rid(2);
    g.put_identity(NodeIdentity { identity_id: i1, kind: NodeKind::Function });
    g.put_revision(make_rev(r_ours, i1, target, "f", [20u8; 32]));

    let classified = vec![ClassifiedMergeIdentity {
        identity_id: i1,
        class: MergeIdentityClass::OursOnly,
        base_revision: Some(rid(1)),
        ours_revision: Some(r_ours),
        theirs_revision: Some(rid(1)),
        qualified_name: "f".into(),
    }];

    let result = phase_b_promote(&mut kv, &mut g, target, &classified, None);
    assert_eq!(result.promoted.len(), 1);
    assert_eq!(result.promoted[0], (i1, r_ours));
    assert!(result.unresolved_conflicts.is_empty());

    let key = revision_binding_kv_key(target, i1);
    assert_eq!(kv.get(&key), Some(r_ours.0.to_vec()));
}

#[test]
fn phase_b_conflict_without_strategy_is_unresolved() {
    let mut kv = MemoryKv::new();
    let mut g = InMemoryGraph::new();
    let target = BranchId([9u8; 16]);

    let i1 = iid(1);
    g.put_identity(NodeIdentity { identity_id: i1, kind: NodeKind::Function });
    g.put_revision(make_rev(rid(2), i1, target, "f", [20u8; 32]));
    g.put_revision(make_rev(rid(3), i1, target, "f", [30u8; 32]));

    let classified = vec![ClassifiedMergeIdentity {
        identity_id: i1,
        class: MergeIdentityClass::BothModifiedUnresolved,
        base_revision: Some(rid(1)),
        ours_revision: Some(rid(2)),
        theirs_revision: Some(rid(3)),
        qualified_name: "f".into(),
    }];

    let result = phase_b_promote(&mut kv, &mut g, target, &classified, None);
    assert!(result.promoted.is_empty());
    assert_eq!(result.unresolved_conflicts.len(), 1);
}

#[test]
fn phase_b_conflict_with_ours_strategy() {
    let mut kv = MemoryKv::new();
    let mut g = InMemoryGraph::new();
    let target = BranchId([9u8; 16]);

    let i1 = iid(1);
    let r_ours = rid(2);
    let r_theirs = rid(3);
    g.put_identity(NodeIdentity { identity_id: i1, kind: NodeKind::Function });
    g.put_revision(make_rev(r_ours, i1, target, "f", [20u8; 32]));
    g.put_revision(make_rev(r_theirs, i1, target, "f", [30u8; 32]));

    let classified = vec![ClassifiedMergeIdentity {
        identity_id: i1,
        class: MergeIdentityClass::BothModifiedUnresolved,
        base_revision: Some(rid(1)),
        ours_revision: Some(r_ours),
        theirs_revision: Some(r_theirs),
        qualified_name: "f".into(),
    }];

    let result = phase_b_promote(&mut kv, &mut g, target, &classified, Some(MergeStrategy::Ours));
    assert_eq!(result.promoted.len(), 1);
    assert_eq!(result.promoted[0], (i1, r_ours));
    assert!(result.unresolved_conflicts.is_empty());

    // Theirs revision should be orphaned
    assert_eq!(result.orphaned_revisions.len(), 1);
    assert_eq!(result.orphaned_revisions[0], r_theirs);
    assert_eq!(g.get_revision(r_theirs).unwrap().status, RevisionStatus::Orphaned);
}

#[test]
fn phase_b_conflict_with_theirs_strategy() {
    let mut kv = MemoryKv::new();
    let mut g = InMemoryGraph::new();
    let target = BranchId([9u8; 16]);

    let i1 = iid(1);
    let r_ours = rid(2);
    let r_theirs = rid(3);
    g.put_identity(NodeIdentity { identity_id: i1, kind: NodeKind::Function });
    g.put_revision(make_rev(r_ours, i1, target, "f", [20u8; 32]));
    g.put_revision(make_rev(r_theirs, i1, target, "f", [30u8; 32]));

    let classified = vec![ClassifiedMergeIdentity {
        identity_id: i1,
        class: MergeIdentityClass::BothModifiedUnresolved,
        base_revision: Some(rid(1)),
        ours_revision: Some(r_ours),
        theirs_revision: Some(r_theirs),
        qualified_name: "f".into(),
    }];

    let result = phase_b_promote(&mut kv, &mut g, target, &classified, Some(MergeStrategy::Theirs),
    );
    assert_eq!(result.promoted[0], (i1, r_theirs));
    assert_eq!(result.orphaned_revisions, vec![r_ours]);
    assert_eq!(g.get_revision(r_ours).unwrap().status, RevisionStatus::Orphaned);
}

// Phase C — edge reconciliation tests

#[test]
fn phase_c_removes_dangling_edges() {
    let mut kv = MemoryKv::new();
    let mut g = InMemoryGraph::new();
    let target = BranchId([9u8; 16]);

    let i_src = iid(1);
    let i_tgt = iid(2);
    let r_src = rid(1);
    g.put_identity(NodeIdentity { identity_id: i_src, kind: NodeKind::Function });
    g.put_identity(NodeIdentity { identity_id: i_tgt, kind: NodeKind::Function });
    g.put_revision(make_rev(r_src, i_src, target, "caller", [10u8; 32]));

    let edge = GraphEdge {
        edge_id: [9u8; 16],
        ty: EdgeType::Calls,
        source_revision_id: r_src,
        target_identity_id: i_tgt,
        resolution: EdgeResolution {
            target_signature_hash: [0u8; 32],
            resolver: SourceType::Ast,
            last_validation_ms: 0,
        },
        anchor: SourceSpan::unknown(),
    };
    g.replace_edges_for_revision(r_src, vec![edge]).unwrap();

    // Only bind source on target branch, NOT the target identity → edge is dangling
    bind(&mut kv, target, i_src, r_src);

    let promoted = vec![(i_src, r_src)];
    let result = phase_c_reconcile_edges(&mut g, &kv, target, &promoted, &vec![]);
    assert_eq!(result.dangling_edges_removed, 1);
    assert!(g.outbound_edges(r_src).is_empty());
}

#[test]
fn phase_c_detects_signature_drift() {
    let mut kv = MemoryKv::new();
    let mut g = InMemoryGraph::new();
    let target = BranchId([9u8; 16]);

    let i_src = iid(1);
    let i_tgt = iid(2);
    let r_src = rid(1);
    let r_tgt = rid(2);
    g.put_identity(NodeIdentity { identity_id: i_src, kind: NodeKind::Function });
    g.put_identity(NodeIdentity { identity_id: i_tgt, kind: NodeKind::Function });
    g.put_revision(make_rev(r_src, i_src, target, "caller", [10u8; 32]));
    let mut tgt_rev = make_rev(r_tgt, i_tgt, target, "callee", [20u8; 32]);
    tgt_rev.signature_hash = [99u8; 32];
    g.put_revision(tgt_rev);

    let edge = GraphEdge {
        edge_id: [9u8; 16],
        ty: EdgeType::Calls,
        source_revision_id: r_src,
        target_identity_id: i_tgt,
        resolution: EdgeResolution {
            target_signature_hash: [55u8; 32],
            resolver: SourceType::Ast,
            last_validation_ms: 0,
        },
        anchor: SourceSpan::unknown(),
    };
    g.replace_edges_for_revision(r_src, vec![edge]).unwrap();

    bind(&mut kv, target, i_src, r_src);
    bind(&mut kv, target, i_tgt, r_tgt);

    let promoted = vec![(i_src, r_src)];
    let result = phase_c_reconcile_edges(&mut g, &kv, target, &promoted, &vec![]);
    assert_eq!(result.signature_drifts.len(), 1);
    assert!(result.signature_drifts[0].contains("signature changed"));
    assert_eq!(result.signature_reresolved, 1);
    let kept = g.outbound_edges(r_src);
    assert_eq!(kept[0].resolution.target_signature_hash, [99u8; 32]);
}

#[test]
fn append_merge_committed_writes_wal_marker() {
    let mut wal = MutationLog::new();
    let mid = MergeId([5u8; 16]);
    let rid = NodeRevisionId([6u8; 16]);
    append_merge_committed(&mut wal, mid, &vec![(IdentityId([1u8; 16]), rid)]).unwrap();
    assert!(wal.iter_all().iter().any(|r| {
        matches!(r.kind, MutationKind::Merge { merge_id: m } if m == mid)
    }));
}

#[test]
fn phase_a_msnap_base_detects_theirs_only_change() {
    let mut kv = MemoryKv::new();
    let mut g = InMemoryGraph::new();
    let target = BranchId([1u8; 16]);
    let source = BranchId([2u8; 16]);
    let merge_id = MergeId([3u8; 16]);

    let i1 = iid(1);
    let r_base = rid(1);
    let r_ours = rid(2);
    let r_theirs = rid(3);
    g.put_identity(NodeIdentity { identity_id: i1, kind: NodeKind::Function });
    g.put_revision(make_rev(r_base, i1, target, "f", [10u8; 32]));
    g.put_revision(make_rev(r_ours, i1, target, "f", [10u8; 32]));
    g.put_revision(make_rev(r_theirs, i1, source, "f", [30u8; 32]));

    bind(&mut kv, target, i1, r_ours);
    bind(&mut kv, source, i1, r_theirs);
    MergeControl::new().record_premerge_bindings(&mut kv, merge_id, target, &vec![(i1, r_base)]);

    let result =
        phase_a_for_merge(&g, &kv, merge_id, target, source, target, target);
    assert_eq!(result.classified[0].class, MergeIdentityClass::TheirsOnly);
}

#[test]
fn phase_c_keeps_valid_edges() {
    let mut kv = MemoryKv::new();
    let mut g = InMemoryGraph::new();
    let target = BranchId([9u8; 16]);

    let i_src = iid(1);
    let i_tgt = iid(2);
    let r_src = rid(1);
    let r_tgt = rid(2);
    g.put_identity(NodeIdentity { identity_id: i_src, kind: NodeKind::Function });
    g.put_identity(NodeIdentity { identity_id: i_tgt, kind: NodeKind::Function });
    g.put_revision(make_rev(r_src, i_src, target, "caller", [10u8; 32]));
    g.put_revision(make_rev(r_tgt, i_tgt, target, "callee", [20u8; 32]));

    let edge = GraphEdge {
        edge_id: [9u8; 16],
        ty: EdgeType::Calls,
        source_revision_id: r_src,
        target_identity_id: i_tgt,
        resolution: EdgeResolution {
            target_signature_hash: [0u8; 32],
            resolver: SourceType::Ast,
            last_validation_ms: 0,
        },
        anchor: SourceSpan::unknown(),
    };
    g.replace_edges_for_revision(r_src, vec![edge]).unwrap();

    bind(&mut kv, target, i_src, r_src);
    bind(&mut kv, target, i_tgt, r_tgt);

    let promoted = vec![(i_src, r_src)];
    let result = phase_c_reconcile_edges(&mut g, &kv, target, &promoted, &vec![]);
    assert_eq!(result.dangling_edges_removed, 0);
    assert_eq!(result.edges_checked, 1);
    assert_eq!(g.outbound_edges(r_src).len(), 1);
}

// End-to-end: Phase A → B → C

#[test]
fn full_merge_non_overlapping_changes() {
    let mut kv = MemoryKv::new();
    let mut g = InMemoryGraph::new();
    let base = BranchId([1u8; 16]);
    let ours = BranchId([2u8; 16]);
    let theirs = BranchId([3u8; 16]);
    let target = ours;

    // i1: modified only in ours
    let i1 = iid(1);
    let r1_base = rid(1);
    let r1_ours = rid(11);
    g.put_identity(NodeIdentity { identity_id: i1, kind: NodeKind::Function });
    g.put_revision(make_rev(r1_base, i1, base, "fn_a", [10u8; 32]));
    g.put_revision(make_rev(r1_ours, i1, ours, "fn_a", [11u8; 32]));
    bind(&mut kv, base, i1, r1_base);
    bind(&mut kv, ours, i1, r1_ours);
    bind(&mut kv, theirs, i1, r1_base);

    // i2: modified only in theirs
    let i2 = iid(2);
    let r2_base = rid(2);
    let r2_theirs = rid(22);
    g.put_identity(NodeIdentity { identity_id: i2, kind: NodeKind::Function });
    g.put_revision(make_rev(r2_base, i2, base, "fn_b", [20u8; 32]));
    g.put_revision(make_rev(r2_theirs, i2, theirs, "fn_b", [21u8; 32]));
    bind(&mut kv, base, i2, r2_base);
    bind(&mut kv, ours, i2, r2_base);
    bind(&mut kv, theirs, i2, r2_theirs);

    // i3: unchanged
    let i3 = iid(3);
    let r3 = rid(3);
    g.put_identity(NodeIdentity { identity_id: i3, kind: NodeKind::Function });
    g.put_revision(make_rev(r3, i3, base, "fn_c", [30u8; 32]));
    bind(&mut kv, base, i3, r3);
    bind(&mut kv, ours, i3, r3);
    bind(&mut kv, theirs, i3, r3);

    // Phase A
    let phase_a = phase_a_classify(&g, &kv, ours, theirs, base);
    assert_eq!(phase_a.report.status, MergeWorkflowStatus::Ready);
    assert_eq!(phase_a.report.resolved_count, 3);
    assert!(phase_a.report.conflicts.is_empty());

    // Phase B
    let phase_b = phase_b_promote(&mut kv, &mut g, target, &phase_a.classified, None);
    assert_eq!(phase_b.promoted.len(), 3);
    assert!(phase_b.unresolved_conflicts.is_empty());

    // Verify target branch bindings
    let target_bindings = scan_branch_bindings(&kv, target);
    assert_eq!(target_bindings.get(&i1), Some(&r1_ours));
    assert_eq!(target_bindings.get(&i2), Some(&r2_theirs));
    assert_eq!(target_bindings.get(&i3), Some(&r3));
}

#[test]
fn full_merge_conflict_resolved_with_strategy() {
    let mut kv = MemoryKv::new();
    let mut g = InMemoryGraph::new();
    let base = BranchId([1u8; 16]);
    let ours = BranchId([2u8; 16]);
    let theirs = BranchId([3u8; 16]);
    let target = ours;

    let i1 = iid(1);
    let r_base = rid(1);
    let r_ours = rid(2);
    let r_theirs = rid(3);
    g.put_identity(NodeIdentity { identity_id: i1, kind: NodeKind::Function });
    g.put_revision(make_rev(r_base, i1, base, "f", [10u8; 32]));
    g.put_revision(make_rev(r_ours, i1, ours, "f", [20u8; 32]));
    g.put_revision(make_rev(r_theirs, i1, theirs, "f", [30u8; 32]));
    bind(&mut kv, base, i1, r_base);
    bind(&mut kv, ours, i1, r_ours);
    bind(&mut kv, theirs, i1, r_theirs);

    // Phase A — should detect conflict
    let phase_a = phase_a_classify(&g, &kv, ours, theirs, base);
    assert_eq!(phase_a.report.status, MergeWorkflowStatus::RequiresResolution);

    // Phase B with Theirs strategy
    let phase_b = phase_b_promote(&mut kv, &mut g, target, &phase_a.classified, Some(MergeStrategy::Theirs),
    );
    assert_eq!(phase_b.promoted.len(), 1);
    assert_eq!(phase_b.promoted[0], (i1, r_theirs));
    assert_eq!(phase_b.orphaned_revisions, vec![r_ours]);

    let target_bindings = scan_branch_bindings(&kv, target);
    assert_eq!(target_bindings.get(&i1), Some(&r_theirs));
}

#[test]
fn full_merge_with_edge_reconciliation() {
    let mut kv = MemoryKv::new();
    let mut g = InMemoryGraph::new();
    let base = BranchId([1u8; 16]);
    let ours = BranchId([2u8; 16]);
    let theirs = BranchId([3u8; 16]);
    let target = ours;

    // i1: caller (modified in theirs)
    let i1 = iid(1);
    let r1_base = rid(1);
    let r1_theirs = rid(11);
    g.put_identity(NodeIdentity { identity_id: i1, kind: NodeKind::Function });
    g.put_revision(make_rev(r1_base, i1, base, "caller", [10u8; 32]));
    g.put_revision(make_rev(r1_theirs, i1, theirs, "caller", [11u8; 32]));
    bind(&mut kv, base, i1, r1_base);
    bind(&mut kv, ours, i1, r1_base);
    bind(&mut kv, theirs, i1, r1_theirs);

    // i2: callee (deleted in theirs — will make edge dangling)
    let i2 = iid(2);
    let r2_base = rid(2);
    g.put_identity(NodeIdentity { identity_id: i2, kind: NodeKind::Function });
    g.put_revision(make_rev(r2_base, i2, base, "callee", [20u8; 32]));
    bind(&mut kv, base, i2, r2_base);
    bind(&mut kv, ours, i2, r2_base);
    // Not bound in theirs → deleted

    // Edge: caller → callee
    let edge = GraphEdge {
        edge_id: [9u8; 16],
        ty: EdgeType::Calls,
        source_revision_id: r1_theirs,
        target_identity_id: i2,
        resolution: EdgeResolution {
            target_signature_hash: [0u8; 32],
            resolver: SourceType::Ast,
            last_validation_ms: 0,
        },
        anchor: SourceSpan::unknown(),
    };
    g.replace_edges_for_revision(r1_theirs, vec![edge]).unwrap();

    // Phase A
    let phase_a = phase_a_classify(&g, &kv, ours, theirs, base);

    // Phase B
    let phase_b = phase_b_promote(&mut kv, &mut g, target, &phase_a.classified, None);
    assert!(!phase_b.promoted.is_empty());

    // Phase C — should detect dangling edge to deleted callee
    let result = phase_c_reconcile_edges(&mut g, &kv, target, &phase_b.promoted, &vec![]);
    assert_eq!(result.dangling_edges_removed, 1);
}

#[test]
fn only_a_deleted_source_is_renamed() {
    let (a, b) = (iid(1), iid(2));
    let mut g = InMemoryGraph::new();
    let mut new = make_rev(rid(5), b, BranchId([1u8; 16]), "b", [2u8; 32]);
    new.rename_source_id = Some(a);
    g.put_revision(new);
    let row = |identity_id, class, base, ours, theirs| ClassifiedMergeIdentity {
        identity_id,
        class,
        base_revision: base,
        ours_revision: ours,
        theirs_revision: theirs,
        qualified_name: "n".to_string(),
    };
    let mut edited = vec![
        row(a, MergeIdentityClass::OursOnly, Some(rid(1)), Some(rid(2)), Some(rid(1))),
        row(b, MergeIdentityClass::OursNew, None, Some(rid(5)), None),
    ];
    detect_renames(&g, &mut edited);
    assert_eq!(edited[0].class, MergeIdentityClass::OursOnly);
    assert_eq!(edited[1].class, MergeIdentityClass::OursNew);
    let mut deleted = vec![
        row(a, MergeIdentityClass::OursOnly, Some(rid(1)), None, Some(rid(1))),
        row(b, MergeIdentityClass::OursNew, None, Some(rid(5)), None),
    ];
    detect_renames(&g, &mut deleted);
    assert_eq!(deleted[0].class, MergeIdentityClass::BothDeleted);
    assert_eq!(deleted[1].class, MergeIdentityClass::RenamedCandidate);
}
