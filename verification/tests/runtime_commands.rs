use cis_core::binding_sync::sync_revision_index_from_graph;
use cis_core::branches::{create_branch, list_branches, purge_branch, switch_branch};
use cis_core::graph::{
    InMemoryGraph, Language, NodeIdentity, NodeKind, NodeRevision, RevisionStatus, SourceSpan,
};
use cis_core::hex::hex16;
use cis_core::ids::{BranchId, IdentityId, MergeId, NodeRevisionId};
use cis_core::keys::revision_binding_kv_key;
use cis_core::kv::MemoryKv;
use cis_core::merge_branch::{
    merge_branch, phase_durations_from_timeline, MergeProgressEvent, ProgressLog, MERGE_PROGRESS_TOTAL,
};
use cis_core::merge_classify::MergeStrategy;
use cis_core::merge_metrics::record_of_merge;
use cis_core::merge_lock::{acquire_merge_lock, merge_lock_holder};
use cis_core::optimistic_patcher::OptimisticPatcher;
use cis_core::patch_commands::{
    confirm_patch, confirm_pending_patches_for_paths, revert_patch, sweep_speculative_orphans,
};
use cis_core::patches::{apply_patch_text, is_probably_unified_diff};
use cis_core::path_lease::{PathLeaseManager, SessionId, SpeculativePathTracker};
use cis_core::queries::{find_symbol, find_symbol_at, hits_of};
use cis_core::revision_cow::RevisionIndexCow;
use cis_core::security::{AuthError, AuthProvider, Session};
use cis_core::semantic_search::{named_places, nearest_asked, search_modes, semantic_candidates};
use cis_core::status::Shortages;
use cis_core::time_travel::{overlay_at_wal_log, record_committed_snapshot};
use cis_core::tracker::BranchReconciliationTracker;
use cis_core::wal::{MutationKind, MutationLog};

fn symbol(
    revision_id: NodeRevisionId,
    identity_id: IdentityId,
    branch_id: BranchId,
    name: &str,
    path: &str,
    body: u8,
) -> NodeRevision {
    NodeRevision {
        revision_id,
        identity_id,
        branch_id,
        status: RevisionStatus::Active,
        qualified_name: name.into(),
        file_path: path.into(),
        body_hash: [body; 32],
        signature_hash: [0u8; 32],
        language: Language::Python,
        parent_revision_id: None,
        rename_source_id: None,
        tombstoned_at_ms: None,
        span: SourceSpan { start_line: 1, start_col: 1, end_line: 1, end_col: 20 },
    }
}

#[test]
fn find_symbol_at_requires_snapshot() {
    let kv = MemoryKv::new();
    assert!(overlay_at_wal_log(&kv, BranchId([0u8; 16]), 1).is_none());
}

#[test]
fn find_symbol_at_hits_after_checkpoint() {
    let mut kv = MemoryKv::new();
    let branch = BranchId([0u8; 16]);
    let mut ri = RevisionIndexCow::root_hydrated(branch, &kv);
    assert_eq!(ri.branch_id(), branch);
    let mut g = InMemoryGraph::new();
    let i = IdentityId([11u8; 16]);
    let rev_id = NodeRevisionId([22u8; 16]);
    g.put_identity(NodeIdentity { identity_id: i, kind: NodeKind::Function });
    g.put_revision(symbol(rev_id, i, branch, "p::mcp_at", "p.py", 3));
    sync_revision_index_from_graph(&mut ri, &mut kv, &g);
    record_committed_snapshot(&ri, &mut kv, branch, 1);
    let overlay = overlay_at_wal_log(&kv, branch, 1).unwrap();
    let found = find_symbol_at(&g, &overlay.resolved_bindings(), branch, "mcp_at", 10);
    let matches = hits_of(&g, &found);
    assert_eq!(matches.len(), 1);
    assert_eq!(matches[0].start_line, 1);
    assert_eq!(matches[0].start_col, 1);
}

#[test]
fn semantic_search_degraded_without_embeddings() {
    let branch = BranchId([0u8; 16]);
    let mut g = InMemoryGraph::new();
    let i = IdentityId([51u8; 16]);
    let r = NodeRevisionId([61u8; 16]);
    g.put_identity(NodeIdentity { identity_id: i, kind: NodeKind::Function });
    g.put_revision(symbol(r, i, branch, "auth.login", "a.py", 9));
    let found = semantic_candidates(&g, branch, "auth", &vec![]);
    assert_eq!(found.embedded_count, 0);
    assert_eq!(found.stale_count, 1);
    let s = Shortages { lsp_active: false, disk_pressure: false, vector_degraded: false };
    let modes = search_modes(s, found.embedded_count > 0, found.stale_count, false);
    assert!(modes.contains(&"semantic_degraded".to_string()));
    assert!(modes.contains(&"embeddings_pending".to_string()));
    assert_eq!(named_places(&found.rows, "AUTH"), vec![0]);
    assert!(named_places(&semantic_candidates(&g, branch, "zzz", &vec![]).rows, "zzz").is_empty());
    assert_eq!(semantic_candidates(&g, branch, "auth", &vec![[9u8; 32]]).embedded_count, 1);
    assert_eq!(nearest_asked(3), 50);
    assert_eq!(nearest_asked(8), 80);
}

fn branch_hex(b: BranchId) -> String {
    b.0.iter().map(|x| format!("{:02x}", x)).collect()
}

#[test]
fn merge_branch_e2e_promotes_source_with_wal_marker() {
    let target = BranchId([0u8; 16]);
    let source = BranchId([2u8; 16]);
    let i1 = IdentityId([11u8; 16]);
    let r_base = NodeRevisionId([21u8; 16]);
    let r_theirs = NodeRevisionId([23u8; 16]);
    let mut kv = MemoryKv::new();
    let mut g = InMemoryGraph::new();
    let mut wal = MutationLog::new();
    let mut tracker = BranchReconciliationTracker::new();
    let spec = SpeculativePathTracker::new();
    g.put_identity(NodeIdentity { identity_id: i1, kind: NodeKind::Function });
    g.put_revision(symbol(r_base, i1, target, "f", "f.py", 10));
    g.put_revision(symbol(r_theirs, i1, source, "f", "f.py", 30));
    kv.set(&revision_binding_kv_key(target, i1), r_base.0.to_vec());
    kv.set(&revision_binding_kv_key(source, i1), r_theirs.0.to_vec());

    let none: Option<&mut ProgressLog> = None;
    let (merged, resp) = merge_branch(
        &mut kv,
        &mut g,
        &mut wal,
        &mut tracker,
        &spec,
        &branch_hex(source),
        &branch_hex(target),
        Some(MergeStrategy::Theirs),
        None,
        None,
        &vec![],
        none,
    )
    .unwrap();

    assert!(resp.committed);
    assert_eq!(resp.phase_b.promoted.len(), 1);
    assert_eq!(
        kv.get(&revision_binding_kv_key(target, i1)),
        Some(r_theirs.0.to_vec())
    );
    let record = record_of_merge(merged, &resp, 9);
    assert_eq!(record.merge_id_hex, hex16(&merged.0));
    assert_eq!(record.started_at_ms, 9);
    assert_eq!(record.phase_durations_ms.len(), 5);
    assert_eq!(record.edges_regenerated, resp.phase_c.edges_regenerated);
    assert!(wal.iter_all().iter().any(|r| {
        matches!(r.kind, MutationKind::Merge { .. })
    }));
    assert!(merge_lock_holder(&kv, target).is_none());
}

#[test]
fn merge_branch_invokes_progress_sink() {
    let target = BranchId([0u8; 16]);
    let source = BranchId([2u8; 16]);
    let mut kv = MemoryKv::new();
    let mut g = InMemoryGraph::new();
    let mut wal = MutationLog::new();
    let mut tracker = BranchReconciliationTracker::new();
    let spec = SpeculativePathTracker::new();
    let mut sink = ProgressLog::new();
    let _ = merge_branch(
        &mut kv,
        &mut g,
        &mut wal,
        &mut tracker,
        &spec,
        &branch_hex(source),
        &branch_hex(target),
        Some(MergeStrategy::Theirs),
        None,
        None,
        &vec![],
        Some(&mut sink),
    )
    .unwrap();
    assert_eq!(sink.count(), MERGE_PROGRESS_TOTAL as usize);
}

#[test]
fn merge_branch_refuses_bad_names_and_held_branches() {
    let target = BranchId([0u8; 16]);
    let source = BranchId([2u8; 16]);
    let mut kv = MemoryKv::new();
    let mut g = InMemoryGraph::new();
    let mut wal = MutationLog::new();
    let mut tracker = BranchReconciliationTracker::new();
    let spec = SpeculativePathTracker::new();
    let mut sink = ProgressLog::new();
    let bad = merge_branch(
        &mut kv, &mut g, &mut wal, &mut tracker, &spec, "nonsense", &branch_hex(target), None, None,
        None, &vec![], Some(&mut sink),
    );
    assert!(matches!(bad, Err(AuthError::InvalidInput)));
    acquire_merge_lock(&mut kv, target, MergeId([9u8; 16])).unwrap();
    let held = merge_branch(
        &mut kv, &mut g, &mut wal, &mut tracker, &spec, &branch_hex(source), &branch_hex(target),
        None, None, None, &vec![], Some(&mut sink),
    );
    assert!(held.is_err());
    assert_eq!(sink.count(), 0);
}

#[test]
fn phase_durations_are_differences() {
    let event = |phase: &str, elapsed_ms: u64| MergeProgressEvent {
        phase: phase.into(),
        elapsed_ms,
        detail: String::new(),
    };
    let t = phase_durations_from_timeline(&vec![event("A", 5), event("B", 12), event("C", 10)]);
    assert_eq!(t.get(&"A".to_string()), Some(&5));
    assert_eq!(t.get(&"B".to_string()), Some(&7));
    assert_eq!(t.get(&"C".to_string()), Some(&0));
}

fn sessions() -> AuthProvider {
    let mut a = AuthProvider::new();
    a.register(Session { id: 1, admin: false, repo_roots: vec!["/repo".into()] });
    a
}

#[test]
fn create_and_switch_branch_mcp() {
    let auth = sessions();
    let mut kv = MemoryKv::new();
    let main = BranchId([1u8; 16]);
    let feature = BranchId([2u8; 16]);
    let i = IdentityId([3u8; 16]);
    let r = NodeRevisionId([4u8; 16]);
    kv.set(&revision_binding_kv_key(main, i), r.0.to_vec());
    assert!(matches!(create_branch(&auth, &mut kv, 1, "feature", main, feature), Ok(1)));
    let mut ri = switch_branch(&auth, &kv, 1, "feature", feature).unwrap();
    assert_eq!(ri.branch_id(), feature);
    assert_eq!(ri.lookup(&kv, i), Some(r));
    let names = list_branches(&vec![("main".into(), main), ("feature".into(), feature)]);
    assert_eq!(names[1].name, "feature");
    assert_eq!(names[1].branch_id_hex, branch_hex(feature));
}

#[test]
fn branches_are_refused_and_purged() {
    let auth = sessions();
    let mut kv = MemoryKv::new();
    let main = BranchId([1u8; 16]);
    let feature = BranchId([2u8; 16]);
    let i = IdentityId([3u8; 16]);
    kv.set(&revision_binding_kv_key(feature, i), vec![0u8; 16]);
    kv.set(&revision_binding_kv_key(main, i), vec![0u8; 16]);
    assert!(matches!(create_branch(&auth, &mut kv, 1, "  ", main, feature), Err(AuthError::InvalidInput)));
    assert!(matches!(create_branch(&auth, &mut kv, 1, "main", main, main), Err(AuthError::InvalidInput)));
    assert!(matches!(create_branch(&auth, &mut kv, 7, "x", main, feature), Err(AuthError::Unauthorized)));
    assert!(matches!(switch_branch(&auth, &kv, 1, "", main), Err(AuthError::InvalidInput)));
    assert!(matches!(purge_branch(&auth, &mut kv, 1, "zz"), Err(AuthError::InvalidInput)));
    assert!(matches!(purge_branch(&auth, &mut kv, 1, &branch_hex(feature)), Ok((b, 1)) if b == feature));
    assert!(kv.get(&revision_binding_kv_key(feature, i)).is_none());
    assert!(kv.get(&revision_binding_kv_key(main, i)).is_some());
}

fn speculative_graph(branch: BranchId) -> InMemoryGraph {
    let mut g = InMemoryGraph::new();
    let mut r = symbol(NodeRevisionId([5u8; 16]), IdentityId([6u8; 16]), branch, "f", "a.py", 1);
    r.status = RevisionStatus::Speculative;
    g.put_revision(r);
    g
}

#[test]
fn patches_are_confirmed_and_reverted() {
    let auth = sessions();
    let branch = BranchId([1u8; 16]);
    let rid = NodeRevisionId([5u8; 16]);
    let mut patcher = OptimisticPatcher::new(PathLeaseManager::new(), SpeculativePathTracker::new());
    let mut wal = MutationLog::new();
    let mut g = speculative_graph(branch);
    let id = patcher.apply_speculative(SessionId(1), vec!["/repo/a.py".into()], None).unwrap();
    let done = confirm_patch(&auth, &mut patcher, &mut g, &mut wal, "/repo", branch, 1, id, 50).unwrap();
    assert_eq!(done.paths_promoted, vec!["/repo/a.py".to_string()]);
    assert_eq!(done.revisions_activated, 1);
    assert_eq!(g.get_revision(rid).unwrap().status, RevisionStatus::Active);
    assert!(matches!(wal.iter_all()[0].kind, MutationKind::PromoteSpeculative { patch_id } if patch_id == id));

    let mut g = speculative_graph(branch);
    let id = patcher.apply_speculative(SessionId(1), vec!["/repo/a.py".into()], None).unwrap();
    assert!(matches!(
        revert_patch(&auth, &mut patcher, &mut g, &mut wal, "/repo", branch, 2, id, 60),
        Err(AuthError::Unauthorized)
    ));
    revert_patch(&auth, &mut patcher, &mut g, &mut wal, "/repo", branch, 1, id, 60).unwrap();
    assert_eq!(g.get_revision(rid).unwrap().status, RevisionStatus::Tombstone);
    assert_eq!(g.get_revision(rid).unwrap().tombstoned_at_ms, Some(60));
    assert!(matches!(
        revert_patch(&auth, &mut patcher, &mut g, &mut wal, "/repo", branch, 1, id, 60),
        Err(AuthError::InvalidInput)
    ));
}

#[test]
fn pending_and_old_patches_are_closed() {
    let branch = BranchId([1u8; 16]);
    let mut patcher = OptimisticPatcher::new(PathLeaseManager::new(), SpeculativePathTracker::new());
    let mut wal = MutationLog::new();
    let mut g = speculative_graph(branch);
    patcher.apply_speculative_at(SessionId(1), vec!["/repo/a.py".into()], None, 1_000).unwrap();
    let n = confirm_pending_patches_for_paths(
        &mut patcher, &mut g, &mut wal, "/repo", branch,
        &vec!["a.py".to_string(), "a.py".to_string(), "b.py".to_string()], 2_000,
    );
    assert_eq!(n, 1);
    assert_eq!(patcher.open_patch_count(), 0);
    patcher.apply_speculative_at(SessionId(1), vec!["/repo/a.py".into()], None, 1_000).unwrap();
    patcher.apply_speculative_at(SessionId(2), vec!["/repo/c.py".into()], None, 90_000).unwrap();
    let kept = patcher.pending_patch_for_path("a.py", "/repo").unwrap();
    let swept = sweep_speculative_orphans(
        &mut patcher, &mut g, &mut wal, "/repo", branch, 60, 100_000, &vec![kept],
    );
    assert_eq!((swept, patcher.open_patch_count()), (1, 2));
    let swept = sweep_speculative_orphans(
        &mut patcher, &mut g, &mut wal, "/repo", branch, 60, 100_000, &vec![],
    );
    assert_eq!(swept, 1);
    assert_eq!(patcher.open_patch_count(), 1);
}

#[test]
fn diffs_are_told_from_texts_and_applied() {
    let diff = "--- a/f\n+++ b/f\n@@ -1,2 +1,2 @@\n a\n-b\n+c\n";
    assert!(is_probably_unified_diff(diff));
    assert!(!is_probably_unified_diff("plain text\n"));
    assert_eq!(apply_patch_text("a\nb\n", diff).unwrap(), "a\nc\n");
    assert_eq!(apply_patch_text("a\nb\n", "whole\n").unwrap(), "whole\n");
    assert!(apply_patch_text("x\ny\n", diff).is_err());
}

#[test]
fn symbols_are_found_by_name() {
    let branch = BranchId([0u8; 16]);
    let mut g = InMemoryGraph::new();
    g.put_revision(symbol(NodeRevisionId([1u8; 16]), IdentityId([1u8; 16]), branch, "a.py::alpha", "a.py", 1));
    g.put_revision(symbol(NodeRevisionId([2u8; 16]), IdentityId([2u8; 16]), branch, "a.py::beta", "a.py", 1));
    let found = find_symbol(&g, branch, "alpha", 10, false);
    let hits = hits_of(&g, &found);
    assert_eq!(hits.len(), 1);
    assert_eq!(hits[0].qualified_name, "a.py::alpha");
    assert_eq!(hits[0].revision_id_hex, hex16(&[1u8; 16]));
    assert_eq!(find_symbol(&g, branch, "a.py", 1, false).len(), 1);
}
