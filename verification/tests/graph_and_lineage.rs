use cis_core::absence::DeletionAbsenceStore;
use cis_core::graph::{
    EdgeResolution, EdgeType, GraphEdge, InMemoryGraph, Language, NodeIdentity, NodeKind,
    NodeRevision, RevisionStatus, SourceSpan, SourceType,
};
use cis_core::ids::{BranchId, IdentityId, NodeRevisionId};
use cis_core::kv::MemoryKv;
use cis_core::overrides::{eto_key, EdgeTargetOverrideStore};
use cis_core::query_engine::{
    expand_context_bfs, file_hub_revision_for_path, rename_successor_identity, resolve_definition_target,
    resolve_identity_revision, resolve_identity_revision_with_absence, AnyPath, PathTest,
};
use cis_core::revision_cow::{RevisionIndexCow, COMPACT_MAX_DEPTH};
use cis_core::revision_index::{
    branch_ancestry, fork_branch_bindings, fork_timestamp, RevisionIndex,
};
use cis_core::revision_lineage::{
    lineage_from_revision, merge_base_revision, retire_revision_to_tombstone, LineageOptions,
};
use cis_core::tombstone_gc::{delete_revision, TombstoneGcWorker, GraphDeleteQueue};
use cis_core::vector_cleanup_queue::VectorCleanupQueue;
use cis_core::wal::MutationLog;

fn branch() -> BranchId {
    BranchId([9u8; 16])
}

fn revision_on(
    revision_id: NodeRevisionId,
    identity_id: IdentityId,
    branch_id: BranchId,
    name: &str,
    status: RevisionStatus,
) -> NodeRevision {
    NodeRevision {
        revision_id,
        identity_id,
        branch_id,
        status,
        qualified_name: name.into(),
        file_path: "m.py".into(),
        body_hash: [0u8; 32],
        signature_hash: [0u8; 32],
        language: Language::Python,
        parent_revision_id: None,
        rename_source_id: None,
        span: SourceSpan::unknown(),
        tombstoned_at_ms: None,
    }
}

fn function(g: &mut InMemoryGraph, identity_id: IdentityId) {
    g.put_identity(NodeIdentity { identity_id, kind: NodeKind::Function });
}

fn rev(g: &mut InMemoryGraph, id: u8, identity: u8, name: &str, status: RevisionStatus) -> NodeRevisionId {
    let iid = IdentityId([identity; 16]);
    let rid = NodeRevisionId([id; 16]);
    function(g, iid);
    g.put_revision(revision_on(rid, iid, branch(), name, status));
    rid
}

fn edge(edge_id: [u8; 16], ty: EdgeType, src: NodeRevisionId, target: IdentityId) -> GraphEdge {
    GraphEdge {
        edge_id,
        ty,
        source_revision_id: src,
        target_identity_id: target,
        resolution: EdgeResolution {
            target_signature_hash: [0u8; 32],
            resolver: SourceType::Ast,
            last_validation_ms: 0,
        },
        anchor: SourceSpan::unknown(),
    }
}

fn call_edge(g: &mut InMemoryGraph, src: NodeRevisionId, target: IdentityId, edge_byte: u8) {
    let mut eid = [0u8; 16];
    eid[0] = edge_byte;
    g.replace_edges_for_revision(src, vec![edge(eid, EdgeType::Calls, src, target)]).unwrap();
}

#[test]
fn tombstone_bridges_to_active_successor() {
    let mut g = InMemoryGraph::new();
    let b = branch();
    let old_i = IdentityId([1u8; 16]);
    let new_i = IdentityId([2u8; 16]);
    let tomb = rev(&mut g, 1, 1, "foo", RevisionStatus::Tombstone);
    let _active = rev(&mut g, 2, 2, "bar", RevisionStatus::Active);
    g.replace_edges_for_revision(tomb, vec![edge([8u8; 16], EdgeType::RenamedFrom, tomb, new_i)])
        .unwrap();
    let tomb_rev = g.primary_revision_for_identity(b, old_i).unwrap();
    assert!(matches!(tomb_rev.status, RevisionStatus::Tombstone));
    assert_eq!(rename_successor_identity(&g, tomb_rev.revision_id), Some(new_i));
    let chain = vec![b];
    let bridged = resolve_identity_revision(&g, &chain, old_i).unwrap();
    assert_eq!(bridged.qualified_name, "bar");
    assert_eq!(bridged.revision_id, NodeRevisionId([2u8; 16]));
}

#[test]
fn eto_redirects_definition_target() {
    let mut kv = MemoryKv::new();
    let eto = EdgeTargetOverrideStore::new();
    let mut g = InMemoryGraph::new();
    let b = branch();
    let chain = vec![b];
    let caller = rev(&mut g, 10, 10, "caller", RevisionStatus::Active);
    let wrong = IdentityId([20u8; 16]);
    let right = IdentityId([30u8; 16]);
    rev(&mut g, 20, 20, "wrong", RevisionStatus::Active);
    rev(&mut g, 30, 30, "right", RevisionStatus::Active);
    let edge_id = [7u8; 16];
    g.replace_edges_for_revision(caller, vec![edge(edge_id, EdgeType::Calls, caller, wrong)]).unwrap();
    eto.set_override(&mut kv, b, caller, edge_id, right);
    let target = resolve_definition_target(&g, &kv, &chain, caller).unwrap();
    assert_eq!(target.qualified_name, "right");
}

#[test]
fn eto_parent_override_visible_on_feature_chain() {
    let mut kv = MemoryKv::new();
    let eto = EdgeTargetOverrideStore::new();
    let mut g = InMemoryGraph::new();
    let main = BranchId([1u8; 16]);
    let feature = BranchId([2u8; 16]);
    let caller_i = IdentityId([10u8; 16]);
    let wrong = IdentityId([20u8; 16]);
    let right = IdentityId([30u8; 16]);
    let caller = NodeRevisionId([10u8; 16]);
    function(&mut g, caller_i);
    g.put_revision(revision_on(caller, caller_i, main, "caller", RevisionStatus::Active));
    for (id, name) in [(20u8, "wrong"), (30u8, "right")] {
        let iid = IdentityId([id; 16]);
        function(&mut g, iid);
        g.put_revision(revision_on(NodeRevisionId([id; 16]), iid, main, name, RevisionStatus::Active));
    }
    let edge_id = [7u8; 16];
    g.replace_edges_for_revision(caller, vec![edge(edge_id, EdgeType::Calls, caller, wrong)]).unwrap();
    eto.set_override(&mut kv, main, caller, edge_id, right);
    let chain = vec![feature, main];
    let target = resolve_definition_target(&g, &kv, &chain, caller).unwrap();
    assert_eq!(target.qualified_name, "right");
}

#[test]
fn expand_prunes_below_min_path_confidence() {
    let kv = MemoryKv::new();
    let mut g = InMemoryGraph::new();
    let b = branch();
    let chain = vec![b];
    let seed = rev(&mut g, 1, 1, "seed", RevisionStatus::Active);
    let leaf = rev(&mut g, 2, 2, "leaf", RevisionStatus::Active);
    call_edge(&mut g, seed, IdentityId([2u8; 16]), 1);
    let _ = leaf;
    let none = PathTest(|_path: &Vec<GraphEdge>| false);
    let out = expand_context_bfs(&g, &kv, &none, &chain, seed, 1);
    assert_eq!(out.hits.len(), 1, "only seed should survive strict floor");
    assert!(out.pruned_low_confidence_count >= 1);
}

#[test]
fn opaque_stub_halts_expansion() {
    let kv = MemoryKv::new();
    let mut g = InMemoryGraph::new();
    let b = branch();
    let chain = vec![b];
    let seed = rev(&mut g, 1, 1, "seed", RevisionStatus::Active);
    let stub_i = IdentityId([5u8; 16]);
    let stub_rid = NodeRevisionId([5u8; 16]);
    g.put_identity(NodeIdentity { identity_id: stub_i, kind: NodeKind::Stub });
    let mut stub = revision_on(stub_rid, stub_i, b, "pkg.stub", RevisionStatus::Active);
    stub.file_path = "".into();
    stub.language = Language::Unknown;
    g.put_revision(stub);
    let beyond = rev(&mut g, 6, 6, "beyond", RevisionStatus::Active);
    call_edge(&mut g, seed, stub_i, 2);
    call_edge(&mut g, stub_rid, IdentityId([6u8; 16]), 3);
    let _ = beyond;
    let out = expand_context_bfs(&g, &kv, &AnyPath, &chain, seed, 2);
    let ids: Vec<NodeRevisionId> = out.hits.iter().map(|(id, _)| *id).collect();
    assert!(ids.contains(&seed));
    assert!(ids.contains(&stub_rid));
    assert!(!ids.contains(&NodeRevisionId([6u8; 16])));
}

#[test]
fn primary_in_chain_nearest_wins() {
    let mut g = InMemoryGraph::new();
    let main = BranchId([1u8; 16]);
    let feature = BranchId([2u8; 16]);
    let iid = IdentityId([7u8; 16]);
    function(&mut g, iid);
    let main_rid = NodeRevisionId([71u8; 16]);
    g.put_revision(revision_on(main_rid, iid, main, "alpha", RevisionStatus::Active));
    let feat_rid = NodeRevisionId([72u8; 16]);
    let mut feat = revision_on(feat_rid, iid, feature, "alpha", RevisionStatus::Active);
    feat.parent_revision_id = Some(main_rid);
    g.put_revision(feat);
    let chain = vec![feature, main];
    let resolved = resolve_identity_revision(&g, &chain, iid).unwrap();
    assert_eq!(resolved.revision_id, feat_rid);
    assert_eq!(
        g.primary_revision_for_identity_in_chain(&chain, iid).unwrap().revision_id,
        feat_rid
    );
}

#[test]
fn chain_inherits_parent_when_child_has_no_primary() {
    let mut g = InMemoryGraph::new();
    let main = BranchId([1u8; 16]);
    let feature = BranchId([2u8; 16]);
    let iid = IdentityId([8u8; 16]);
    function(&mut g, iid);
    let main_rid = NodeRevisionId([81u8; 16]);
    g.put_revision(revision_on(main_rid, iid, main, "beta", RevisionStatus::Active));
    let chain = vec![feature, main];
    let resolved = resolve_identity_revision(&g, &chain, iid).unwrap();
    assert_eq!(resolved.revision_id, main_rid);
    assert_eq!(resolved.branch_id, main);
}

#[test]
fn absence_hides_parent_even_without_local_tombstone() {
    let mut g = InMemoryGraph::new();
    let main = BranchId([1u8; 16]);
    let feature = BranchId([2u8; 16]);
    let iid = IdentityId([42u8; 16]);
    function(&mut g, iid);
    let main_rid = NodeRevisionId([81u8; 16]);
    g.put_revision(revision_on(main_rid, iid, main, "gone", RevisionStatus::Active));
    // No feature revision at all (tombstone already GC'd), only the absence marker.
    let mut kv = MemoryKv::new();
    DeletionAbsenceStore::new().mark_deleted(&mut kv, feature, iid);
    let chain = vec![feature, main];
    assert!(
        resolve_identity_revision_with_absence(&g, &chain, iid, Some(&kv)).is_none(),
        "absence must hide parent Active after overlay GC"
    );
    // Without absence, parent would be visible:
    assert_eq!(resolve_identity_revision(&g, &chain, iid).unwrap().revision_id, main_rid);
    // Parent branch alone still sees it:
    assert!(resolve_identity_revision_with_absence(&g, &vec![main], iid, Some(&kv)).is_some());
}

#[test]
fn clearing_absence_restores_inheritance() {
    let mut g = InMemoryGraph::new();
    let main = BranchId([1u8; 16]);
    let feature = BranchId([2u8; 16]);
    let iid = IdentityId([43u8; 16]);
    function(&mut g, iid);
    g.put_revision(revision_on(NodeRevisionId([83u8; 16]), iid, main, "restored", RevisionStatus::Active));
    let mut kv = MemoryKv::new();
    let absence = DeletionAbsenceStore::new();
    absence.mark_deleted(&mut kv, feature, iid);
    let chain = vec![feature, main];
    assert!(resolve_identity_revision_with_absence(&g, &chain, iid, Some(&kv)).is_none());
    absence.clear_deleted(&mut kv, feature, iid);
    assert!(resolve_identity_revision_with_absence(&g, &chain, iid, Some(&kv)).is_some());
}

#[test]
fn cow_lookup_falls_through_parent() {
    let mut kv = MemoryKv::new();
    let mut base = RevisionIndexCow::root(BranchId([1u8; 16]));
    let i = IdentityId([9u8; 16]);
    let r = NodeRevisionId([8u8; 16]);
    base.bind(&mut kv, i, r);
    let mut feat = RevisionIndexCow::fork(base, BranchId([2u8; 16]));
    assert_eq!(feat.lookup(&kv, i), Some(r));
}

#[test]
fn child_override_wins() {
    let mut kv = MemoryKv::new();
    let mut base = RevisionIndexCow::root(BranchId([1u8; 16]));
    let i = IdentityId([9u8; 16]);
    base.bind(&mut kv, i, NodeRevisionId([1u8; 16]));
    let mut feat = RevisionIndexCow::fork(base, BranchId([2u8; 16]));
    feat.bind(&mut kv, i, NodeRevisionId([2u8; 16]));
    assert_eq!(feat.lookup(&kv, i), Some(NodeRevisionId([2u8; 16])));
}

#[test]
fn compaction_flattens_deep_chain() {
    let mut kv = MemoryKv::new();
    let mut cur = RevisionIndexCow::root(BranchId([1u8; 16]));
    let i = IdentityId([3u8; 16]);
    cur.bind(&mut kv, i, NodeRevisionId([4u8; 16]));
    for b in 2u8..=12 {
        cur = RevisionIndexCow::fork(cur, BranchId([b; 16]));
    }
    assert!(cur.chain_depth() > COMPACT_MAX_DEPTH);
    let mut flat = RevisionIndexCow::compacted_if_deep(cur);
    assert!(flat.chain_depth() <= COMPACT_MAX_DEPTH);
    assert_eq!(flat.lookup(&kv, i), Some(NodeRevisionId([4u8; 16])));
}

#[test]
fn ris_roundtrip() {
    let mut kv = MemoryKv::new();
    let mut idx = RevisionIndexCow::root(BranchId([7u8; 16]));
    idx.bind(&mut kv, IdentityId([5u8; 16]), NodeRevisionId([6u8; 16]));
    idx.persist_ris_snapshot(&mut kv, 42);
    let mut loaded = RevisionIndexCow::from_ris_snapshot(BranchId([7u8; 16]), &kv, 42).unwrap();
    assert_eq!(
        loaded.lookup(&kv, IdentityId([5u8; 16])),
        Some(NodeRevisionId([6u8; 16]))
    );
}

#[test]
fn bind_roundtrip() {
    let mut kv = MemoryKv::new();
    let b = BranchId([9u8; 16]);
    let mut ri = RevisionIndex::new(b, &kv);
    let id = IdentityId([1u8; 16]);
    let r = NodeRevisionId([2u8; 16]);
    ri.bind(&mut kv, id, r);
    assert_eq!(ri.lookup(&kv, id), Some(r));
}

#[test]
fn fork_branch_bindings_copies_rows() {
    let mut kv = MemoryKv::new();
    let parent = BranchId([1u8; 16]);
    let child = BranchId([2u8; 16]);
    let phex = parent.0.iter().map(|b| format!("{:02x}", b)).collect::<String>();
    let idhex = "ab".repeat(16);
    kv.set(&format!("ri:{phex}:{idhex}"), NodeRevisionId([3u8; 16]).0.to_vec());
    assert_eq!(fork_branch_bindings(&mut kv, parent, child), 1);
    let chex = child.0.iter().map(|b| format!("{:02x}", b)).collect::<String>();
    assert!(kv.get(&format!("ri:{chex}:{idhex}")).is_some());
    assert!(fork_timestamp(&kv, child).is_some());
}

#[test]
fn branch_ancestry_single_root() {
    let kv = MemoryKv::new();
    let main = BranchId([1u8; 16]);
    assert_eq!(branch_ancestry(&kv, main), vec![main]);
}

#[test]
fn branch_ancestry_multi_level() {
    let mut kv = MemoryKv::new();
    let main = BranchId([1u8; 16]);
    let feature = BranchId([2u8; 16]);
    let sub = BranchId([3u8; 16]);
    fork_branch_bindings(&mut kv, main, feature);
    fork_branch_bindings(&mut kv, feature, sub);
    assert_eq!(branch_ancestry(&kv, sub), vec![sub, feature, main]);
}

#[test]
fn branch_ancestry_cycle_guard() {
    let mut kv = MemoryKv::new();
    let a = BranchId([0x0a; 16]);
    let b = BranchId([0x0b; 16]);
    kv.set(&format!("branch_parent:{}", "0a".repeat(16)), b.0.to_vec());
    kv.set(&format!("branch_parent:{}", "0b".repeat(16)), a.0.to_vec());
    let chain = branch_ancestry(&kv, a);
    assert_eq!(chain, vec![a, b]);
}

fn id(n: u8) -> IdentityId {
    IdentityId([n; 16])
}

fn rid(n: u8) -> NodeRevisionId {
    NodeRevisionId([n; 16])
}

fn put_line(
    g: &mut InMemoryGraph,
    revision_id: NodeRevisionId,
    identity_id: IdentityId,
    qn: &str,
    status: RevisionStatus,
    parent: Option<NodeRevisionId>,
    rename_source: Option<IdentityId>,
) {
    function(g, identity_id);
    let mut r = revision_on(revision_id, identity_id, BranchId([1u8; 16]), qn, status);
    r.body_hash = [revision_id.0[0]; 32];
    r.signature_hash = [revision_id.0[0]; 32];
    r.parent_revision_id = parent;
    r.rename_source_id = rename_source;
    r.tombstoned_at_ms = if matches!(status, RevisionStatus::Tombstone) { Some(1) } else { None };
    g.put_revision(r);
}

#[test]
fn walks_parent_revision_chain() {
    let mut g = InMemoryGraph::new();
    let iid = id(1);
    put_line(&mut g, rid(1), iid, "v1", RevisionStatus::Tombstone, None, None);
    put_line(&mut g, rid(2), iid, "v2", RevisionStatus::Active, Some(rid(1)), None);
    let chain = vec![BranchId([1u8; 16])];
    let steps = lineage_from_revision(&g, &chain, rid(2), &LineageOptions::standard());
    assert_eq!(steps.len(), 2);
    assert_eq!(steps[0].revision_id, rid(2));
    assert_eq!(steps[1].revision_id, rid(1));
    assert!(matches!(steps[1].status, RevisionStatus::Tombstone));
}

#[test]
fn follows_rename_source_backward() {
    let mut g = InMemoryGraph::new();
    let old_i = id(1);
    let new_i = id(2);
    let tomb = rid(1);
    let active = rid(2);
    put_line(&mut g, tomb, old_i, "foo", RevisionStatus::Tombstone, None, None);
    put_line(&mut g, active, new_i, "bar", RevisionStatus::Active, Some(tomb), Some(old_i));
    g.replace_edges_for_revision(tomb, vec![edge([9u8; 16], EdgeType::RenamedFrom, tomb, new_i)])
        .unwrap();
    let chain = vec![BranchId([1u8; 16])];
    let steps = lineage_from_revision(&g, &chain, active, &LineageOptions::standard());
    assert_eq!(steps.len(), 2);
    assert_eq!(steps[0].qualified_name, "bar");
    assert_eq!(steps[1].qualified_name, "foo");
}

#[test]
fn merge_base_finds_shared_ancestor() {
    let mut g = InMemoryGraph::new();
    let iid = id(3);
    put_line(&mut g, rid(10), iid, "base", RevisionStatus::Tombstone, None, None);
    put_line(&mut g, rid(11), iid, "mid", RevisionStatus::Tombstone, Some(rid(10)), None);
    put_line(&mut g, rid(12), iid, "tip", RevisionStatus::Active, Some(rid(11)), None);
    let chain = vec![BranchId([1u8; 16])];
    let opts = LineageOptions::standard();
    let base = merge_base_revision(&g, &chain, rid(12), rid(11), &opts);
    assert_eq!(base, Some(rid(11)));
    let base2 = merge_base_revision(&g, &chain, rid(12), rid(10), &opts);
    assert_eq!(base2, Some(rid(10)));
}

#[test]
fn retire_revision_to_tombstone_preserves_row() {
    let mut g = InMemoryGraph::new();
    let iid = id(4);
    let b = BranchId([1u8; 16]);
    let stable = rid(44);
    put_line(&mut g, stable, iid, "fn", RevisionStatus::Active, None, None);
    retire_revision_to_tombstone(&mut g, stable);
    let r = g.get_revision(stable).unwrap();
    assert!(matches!(r.status, RevisionStatus::Tombstone));
    // Row is preserved for lineage/bridging, but never bound as primary.
    assert!(g.primary_revision_for_identity(b, iid).is_none());
    assert_eq!(
        g.tombstone_revision_for_identity(b, iid).map(|t| t.revision_id),
        Some(stable)
    );
}

fn tombstone_rev(id: u8, tombstoned_ms: u64) -> NodeRevision {
    let mut r = revision_on(
        NodeRevisionId([id; 16]),
        IdentityId([id; 16]),
        BranchId([0u8; 16]),
        &format!("sym_{id}"),
        RevisionStatus::Tombstone,
    );
    r.file_path = "a.py".into();
    r.body_hash = [id; 32];
    r.tombstoned_at_ms = Some(tombstoned_ms);
    r
}

#[test]
fn scan_respects_retention() {
    let mut g = InMemoryGraph::new();
    g.put_revision(tombstone_rev(1, 0));
    let kv = MemoryKv::new();
    let wal = MutationLog::new();
    let worker = TombstoneGcWorker { retention_ms: 1_000 };
    let ids = worker.scan_eligible(&mut g, &kv, &wal, &vec![], 10_000);
    assert_eq!(ids.len(), 1);
    assert!(worker.scan_eligible(&mut g, &kv, &wal, &vec![], 500).is_empty());
    assert_eq!(TombstoneGcWorker::from_policy(90).retention_ms, 7_776_000_000);
}

#[test]
fn delete_revision_clears_eto_rows() {
    let mut g = InMemoryGraph::new();
    let rid = NodeRevisionId([7u8; 16]);
    let mut rev = tombstone_rev(7, 0);
    rev.revision_id = rid;
    function(&mut g, rev.identity_id);
    g.put_revision(rev);
    let mut kv = MemoryKv::new();
    let branch = BranchId([0u8; 16]);
    let edge_id = [3u8; 16];
    let key = eto_key(branch, rid, &edge_id);
    kv.set(&key, IdentityId([4u8; 16]).0.to_vec());
    assert!(kv.get(&key).is_some());

    let mut vq = VectorCleanupQueue::new();
    delete_revision(&mut g, &mut kv, &mut vq, rid).unwrap();
    assert!(kv.get(&key).is_none());
    assert!(g.get_revision(rid).is_none());
}

#[test]
fn scan_skips_tombstone_with_live_inbound_edges() {
    let mut g = InMemoryGraph::new();
    let branch = BranchId([0u8; 16]);
    let target_i = IdentityId([10u8; 16]);
    let caller_i = IdentityId([20u8; 16]);
    let caller_r = NodeRevisionId([20u8; 16]);
    let tomb_r = NodeRevisionId([10u8; 16]);
    function(&mut g, caller_i);
    function(&mut g, target_i);
    let mut tomb = tombstone_rev(10, 0);
    tomb.revision_id = tomb_r;
    tomb.identity_id = target_i;
    tomb.branch_id = branch;
    g.put_revision(tomb);
    g.put_revision(revision_on(caller_r, caller_i, branch, "caller", RevisionStatus::Active));
    g.replace_edges_for_revision(
        caller_r,
        vec![edge([7u8; 16], EdgeType::Calls, caller_r, target_i)],
    )
    .unwrap();
    let kv = MemoryKv::new();
    let wal = MutationLog::new();
    let worker = TombstoneGcWorker { retention_ms: 0 };
    let ids = worker.scan_eligible(&mut g, &kv, &wal, &vec![], 10_000);
    assert!(
        !ids.contains(&tomb_r),
        "tombstone with inbound edges must not be GC-eligible"
    );
}

#[test]
fn scan_retires_what_was_deleted_softly() {
    let mut g = InMemoryGraph::new();
    let branch = BranchId([0u8; 16]);
    let live = NodeRevisionId([4u8; 16]);
    g.put_revision(tombstone_rev(1, 0));
    g.put_revision(revision_on(
        live,
        IdentityId([4u8; 16]),
        branch,
        "soft",
        RevisionStatus::Active,
    ));
    let kv = MemoryKv::new();
    let wal = MutationLog::new();
    let patient = TombstoneGcWorker { retention_ms: 1_000 };
    let tomb = NodeRevisionId([1u8; 16]);
    assert_eq!(patient.scan_eligible(&mut g, &kv, &wal, &vec![live], 10_000), vec![tomb]);
    let r = g.get_revision(live).unwrap();
    assert_eq!(r.status, RevisionStatus::Tombstone);
    assert_eq!(r.tombstoned_at_ms, Some(10_000));
    let hasty = TombstoneGcWorker { retention_ms: 0 };
    assert_eq!(hasty.scan_eligible(&mut g, &kv, &wal, &vec![], 10_000), vec![tomb, live]);
}

#[test]
fn a_large_batch_ends_with_the_queue() {
    let mut g = InMemoryGraph::new();
    g.put_revision(tombstone_rev(1, 0));
    let mut kv = MemoryKv::new();
    let mut vq = VectorCleanupQueue::default();
    let mut queue = GraphDeleteQueue::new();
    let worker = TombstoneGcWorker { retention_ms: 0 };
    let there = NodeRevisionId([1u8; 16]);
    worker.enqueue_deletes(&vec![there], &mut queue, BranchId([0u8; 16]));
    let report = worker.drain_batch(&mut g, &mut kv, &mut vq, &mut queue, usize::MAX);
    assert_eq!((report.attempted, report.deleted_ok, report.requeued), (1, 1, 0));
    assert_eq!(queue.depth(), 0);
    assert_eq!(vq.depth(), 1);
    worker.enqueue_deletes(&vec![there], &mut queue, BranchId([0u8; 16]));
    let report = worker.drain_batch(&mut g, &mut kv, &mut vq, &mut queue, 3);
    assert_eq!((report.attempted, report.deleted_ok, report.requeued), (3, 0, 3));
    assert_eq!(queue.depth(), 1);
}

#[test]
fn a_deleted_symbol_does_not_come_back_through_the_parent() {
    let mut g = InMemoryGraph::new();
    let main = BranchId([1u8; 16]);
    let feature = BranchId([2u8; 16]);
    let iid = IdentityId([8u8; 16]);
    function(&mut g, iid);
    let kept = NodeRevisionId([81u8; 16]);
    let gone = NodeRevisionId([82u8; 16]);
    g.put_revision(revision_on(kept, iid, main, "beta", RevisionStatus::Active));
    let chain = vec![feature, main];
    assert_eq!(resolve_identity_revision(&g, &chain, iid).unwrap().revision_id, kept);
    g.put_revision(revision_on(gone, iid, feature, "beta", RevisionStatus::Tombstone));
    assert!(resolve_identity_revision(&g, &chain, iid).is_none());
    assert!(g.primary_revision_for_identity(feature, iid).is_none());
    assert_eq!(
        g.primary_revision_for_identity_in_chain(&chain, iid).unwrap().revision_id,
        gone
    );
    assert_eq!(resolve_identity_revision(&g, &vec![main], iid).unwrap().revision_id, kept);
    assert!(resolve_identity_revision(&g, &vec![BranchId([3u8; 16]), feature, main], iid).is_none());
    let next = IdentityId([9u8; 16]);
    function(&mut g, next);
    let new = NodeRevisionId([91u8; 16]);
    g.put_revision(revision_on(new, next, main, "gamma", RevisionStatus::Active));
    g.replace_edges_for_revision(gone, vec![edge([5u8; 16], EdgeType::RenamedFrom, gone, next)])
        .unwrap();
    assert_eq!(resolve_identity_revision(&g, &chain, iid).unwrap().revision_id, new);
}

#[test]
fn a_hub_is_found_by_its_derived_id() {
    let mut g = InMemoryGraph::new();
    let main = BranchId([1u8; 16]);
    let feature = BranchId([2u8; 16]);
    let iid = IdentityId([8u8; 16]);
    g.put_identity(NodeIdentity { identity_id: iid, kind: NodeKind::File });
    let hub = NodeRevisionId([81u8; 16]);
    let stray = NodeRevisionId([82u8; 16]);
    let mut other = revision_on(stray, iid, feature, "a.py", RevisionStatus::Active);
    other.file_path = "a.py".into();
    g.put_revision(other);
    let chain = vec![feature, main];
    assert_eq!(file_hub_revision_for_path(&g, &chain, "a.py"), None);
    g.record_hub_id(feature, "a.py", NodeRevisionId([80u8; 16]));
    g.record_hub_id(main, "a.py", hub);
    assert_eq!(file_hub_revision_for_path(&g, &chain, "a.py"), None);
    g.put_revision(revision_on(hub, iid, main, "a.py", RevisionStatus::Active));
    assert_eq!(file_hub_revision_for_path(&g, &chain, "a.py"), Some(hub));
    assert_eq!(file_hub_revision_for_path(&g, &vec![feature], "a.py"), None);
}
