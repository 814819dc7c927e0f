use cis_core::audit::{append_audit_epoch, verify_audit_chain};
use cis_core::graph::{
    EdgeResolution, EdgeType, GraphEdge, InMemoryGraph, Language, NodeIdentity, NodeKind,
    NodeRevision, RevisionStatus, SourceSpan, SourceType,
};
use cis_core::hex::hex16;
use cis_core::ids::{BranchId, IdentityId, MergeId, NodeRevisionId};
use cis_core::keys::revision_binding_kv_key;
use cis_core::kv::MemoryKv;
use cis_core::merge_cancel::{cancel_merge_request, run_merge_ttl_sweep};
use cis_core::merge_control::MergeControl;
use cis_core::merge_gate::MergeRecoveryGate;
use cis_core::merge_lock::{acquire_merge_lock, merge_lock_holder, record_merge_started_ms};
use cis_core::merge_saga_batch::{
    apply_and_persist_saga_batches, compensate_saga_edge_batches, load_saga_edge_batches,
    SagaEdgeBatch,
};
use cis_core::optimistic_patcher::OptimisticPatcher;
use cis_core::patch_commands::speculate_file;
use cis_core::patches::{apply_patch_text, has_fitting_heads, paths_to_reindex, settle_patch};
use cis_core::path_lease::{PathLeaseManager, SessionId, SpeculativePathTracker};
use cis_core::query_context::CharApproxTokenizer;
use cis_core::repo_bootstrap::{
    collect_indexable_files, collect_py_files, indexed_path, needs_walk,
};
use cis_core::revision_cow::RevisionIndexCow;
use cis_core::saga::MergeSagaOrchestrator;
use cis_core::security::{AuthError, AuthProvider, Session};
use cis_core::semantic_ann::FlatAnnIndex;
use cis_core::semantic_search::{count_matches, scored_places, semantic_candidates};
use cis_core::status::{
    consistency_modes, index_counts, index_modes, ingest_cis_config, reconciliation_status,
    system_health, ConfigFile, Findings, Shortages,
};
use cis_core::symbol_body::{
    bytes_to_keep, get_symbol_body, removed_bodies, resolve_revision_body, BodySource,
};
use cis_core::time_travel::{overlay_at_wal_log_at, record_committed_snapshot};
use cis_core::tracker::BranchReconciliationTracker;
use cis_core::vector_store::InMemoryVectorStore;
use cis_core::wal::{MutationKind, MutationLog};
use cis_core::write_commands::{admit_write, open_write, path_below};

const HEALTHY: Shortages =
    Shortages { lsp_active: true, disk_pressure: false, vector_degraded: false };

fn main_branch() -> BranchId {
    BranchId([0u8; 16])
}

fn symbol(id: u8, name: &str, path: &str, status: RevisionStatus) -> NodeRevision {
    NodeRevision {
        revision_id: NodeRevisionId([id; 16]),
        identity_id: IdentityId([id; 16]),
        branch_id: main_branch(),
        status,
        qualified_name: name.into(),
        file_path: path.into(),
        body_hash: [id; 32],
        signature_hash: [0u8; 32],
        language: Language::Python,
        parent_revision_id: None,
        rename_source_id: None,
        tombstoned_at_ms: None,
        span: SourceSpan::unknown(),
    }
}

fn edge(id: u8, source: NodeRevisionId, target: IdentityId) -> GraphEdge {
    GraphEdge {
        edge_id: [id; 16],
        ty: EdgeType::Calls,
        source_revision_id: source,
        target_identity_id: target,
        resolution: EdgeResolution {
            target_signature_hash: [0u8; 32],
            resolver: SourceType::Ast,
            last_validation_ms: 0,
        },
        anchor: SourceSpan::unknown(),
    }
}

fn known_session() -> AuthProvider {
    let mut auth = AuthProvider::new();
    auth.register(Session { id: 1, admin: false, repo_roots: vec!["/repo".to_string()] });
    auth
}

#[test]
fn cancelling_a_merge_takes_the_barrier_down() {
    let auth = known_session();
    let mut kv = MemoryKv::new();
    let mut g = InMemoryGraph::new();
    let mut vector = InMemoryVectorStore::new();
    let mut wal = MutationLog::new();
    let b = main_branch();
    let m = MergeId([5u8; 16]);
    let id = IdentityId([2u8; 16]);
    let before = NodeRevisionId([3u8; 16]);
    acquire_merge_lock(&mut kv, b, m).unwrap();
    MergeControl::new().record_premerge_bindings(&mut kv, m, b, &vec![(id, before)]);
    kv.set(&revision_binding_kv_key(b, id), vec![9u8; 16]);
    let rep = cancel_merge_request(
        &auth, &mut kv, &mut g, &mut vector, &mut wal, 1, &hex16(&m.0), b, &vec![],
    )
    .unwrap();
    assert_eq!(rep.restored_bindings, 1);
    assert_eq!(kv.get(&revision_binding_kv_key(b, id)), Some(before.0.to_vec()));
    assert!(merge_lock_holder(&kv, b).is_none());
    assert!(!MergeRecoveryGate::new().is_query_blocked(&kv, b));
    assert_eq!(wal.iter_all().len(), 1);
    assert!(matches!(wal.iter_all()[0].kind, MutationKind::MergeCancelled { .. }));
}

#[test]
fn a_refused_cancellation_holds_queries_back() {
    let auth = known_session();
    let mut kv = MemoryKv::new();
    let mut g = InMemoryGraph::new();
    let mut vector = InMemoryVectorStore::new();
    let mut wal = MutationLog::new();
    let b = main_branch();
    let m = MergeId([5u8; 16]);
    let gate = MergeRecoveryGate::new();
    let none = vec![];
    let out = cancel_merge_request(
        &auth, &mut kv, &mut g, &mut vector, &mut wal, 2, &hex16(&m.0), b, &none,
    );
    assert!(matches!(out, Err(AuthError::Unauthorized)));
    let out =
        cancel_merge_request(&auth, &mut kv, &mut g, &mut vector, &mut wal, 1, "xyz", b, &none);
    assert!(matches!(out, Err(AuthError::InvalidInput)));
    assert!(!gate.is_query_blocked(&kv, b));
    kv.set(&format!("msnap:{}:ri:broken", hex16(&m.0)), vec![1]);
    let out = cancel_merge_request(
        &auth, &mut kv, &mut g, &mut vector, &mut wal, 1, &hex16(&m.0), b, &none,
    );
    assert!(matches!(out, Err(AuthError::InvalidInput)));
    assert!(gate.is_query_blocked(&kv, b));
    assert!(wal.iter_all().is_empty());
}

#[test]
fn a_sweep_needs_a_session() {
    let auth = known_session();
    let mut kv = MemoryKv::new();
    let m = MergeId([5u8; 16]);
    acquire_merge_lock(&mut kv, main_branch(), m).unwrap();
    record_merge_started_ms(&mut kv, m, 0);
    assert!(run_merge_ttl_sweep(&auth, &mut kv, 2, u64::MAX, 1).is_err());
    assert!(merge_lock_holder(&kv, main_branch()).is_some());
    assert_eq!(run_merge_ttl_sweep(&auth, &mut kv, 1, u64::MAX, 1).unwrap(), 1);
    assert!(merge_lock_holder(&kv, main_branch()).is_none());
}

#[test]
fn batches_are_applied_up_to_the_first_missing_revision() {
    let mut g = InMemoryGraph::new();
    let mut kv = MemoryKv::new();
    let m = MergeId([7u8; 16]);
    let r = NodeRevisionId([1u8; 16]);
    g.put_identity(NodeIdentity { identity_id: IdentityId([1u8; 16]), kind: NodeKind::Function });
    g.put_revision(symbol(1, "a.f", "a.py", RevisionStatus::Active));
    let batch = |seq: u32, target: NodeRevisionId| SagaEdgeBatch {
        seq,
        target_revision_id: target,
        prior_edges: vec![],
        edges: vec![edge(seq as u8, target, IdentityId([9u8; 16]))],
    };
    let saga = MergeSagaOrchestrator::new();
    let batches = vec![batch(1, r), batch(2, NodeRevisionId([8u8; 16])), batch(3, r)];
    assert!(apply_and_persist_saga_batches(&mut g, &mut kv, m, &saga, &batches).is_err());
    assert_eq!(g.outbound_edges(r).len(), 1);
    assert_eq!(g.outbound_edges(r)[0].edge_id, [1u8; 16]);
    let kept = load_saga_edge_batches(&kv, m);
    assert_eq!(kept.len(), 1);
    assert!(kv.get(&MergeSagaOrchestrator::batch_key(m, 1)).is_some());
    assert!(kv.get(&MergeSagaOrchestrator::batch_key(m, 2)).is_none());
    compensate_saga_edge_batches(&mut g, &kept);
    assert!(g.outbound_edges(r).is_empty());
}

#[test]
fn a_write_is_let_in_or_refused() {
    let auth = known_session();
    assert_eq!(admit_write(&auth, 1, false, "/repo", "a.py").unwrap(), "/repo/a.py");
    assert_eq!(admit_write(&auth, 1, false, "/repo", "/repo/b.py").unwrap(), "/repo/b.py");
    assert!(matches!(admit_write(&auth, 3, true, "/repo", ".."), Err(AuthError::Unauthorized)));
    assert!(matches!(admit_write(&auth, 1, true, "/repo", ".."), Err(AuthError::DiskPressure)));
    assert!(matches!(admit_write(&auth, 1, false, "/repo", "../a"), Err(AuthError::Forbidden)));
    assert!(path_below("/repo", "/repo/a.py"));
    assert!(path_below("/repo", "/repo"));
    assert!(path_below("/", "/repo"));
    assert!(!path_below("/repo", "/repository/a.py"));
}

#[test]
fn a_write_opens_a_patch() {
    let auth = known_session();
    let mut kv = MemoryKv::new();
    let b = main_branch();
    let mut p = OptimisticPatcher::new(PathLeaseManager::new(), SpeculativePathTracker::new());
    let id = open_write(&auth, &mut p, &kv, b, 1, "/repo", "/repo/a.py", 10).unwrap();
    assert_eq!(p.peek_patch_paths(id), vec!["/repo/a.py".to_string()]);
    assert_eq!(p.leases().holder("/repo/a.py"), Some(SessionId(1)));
    let out = open_write(&auth, &mut p, &kv, b, 1, "/repo", "/elsewhere/a.py", 10);
    assert!(matches!(out, Err(AuthError::Forbidden)));
    acquire_merge_lock(&mut kv, b, MergeId([1u8; 16])).unwrap();
    let out = open_write(&auth, &mut p, &kv, b, 1, "/repo", "/repo/b.py", 10);
    assert!(matches!(out, Err(AuthError::Forbidden)));
    assert_eq!(p.open_patch_count(), 1);
}

#[test]
fn what_is_written_is_speculative_until_confirmed() {
    let mut g = InMemoryGraph::new();
    let mut wal = MutationLog::new();
    let b = main_branch();
    g.put_revision(symbol(1, "a.f", "a.py", RevisionStatus::Active));
    g.put_revision(symbol(2, "a.g", "a.py", RevisionStatus::Tombstone));
    g.put_revision(symbol(3, "b.f", "b.py", RevisionStatus::Active));
    assert_eq!(speculate_file(&mut g, b, "a.py"), 1);
    let status = |g: &InMemoryGraph, id: u8| g.get_revision(NodeRevisionId([id; 16])).unwrap().status;
    assert_eq!(status(&g, 1), RevisionStatus::Speculative);
    assert_eq!(status(&g, 2), RevisionStatus::Tombstone);
    assert_eq!(status(&g, 3), RevisionStatus::Active);
    let paths = vec!["/repo/a.py".to_string()];
    assert_eq!(settle_patch(&mut g, &mut wal, "/repo", &paths, b, 4, None, 1).unwrap(), 1);
    assert_eq!(status(&g, 1), RevisionStatus::Active);
    let rec = wal.get(1).unwrap();
    assert_eq!(rec.affected_revisions, vec![NodeRevisionId([1u8; 16])]);
    assert_eq!(rec.created_at_ms, 1);
    assert_eq!(rec.payload_checksum[0], 1);
    assert!(rec.payload_checksum[1..].iter().all(|x| *x == 0));
    let paths = vec!["/repo/a.py".to_string(), "/repo/notes.txt".to_string()];
    assert_eq!(paths_to_reindex("/repo", &paths), vec!["a.py".to_string()]);
}

#[test]
fn a_snapshot_kept_elsewhere_is_read_where_the_store_has_none() {
    let b = main_branch();
    let id = IdentityId([2u8; 16]);
    let rev = NodeRevisionId([3u8; 16]);
    let mut kv = MemoryKv::new();
    let mut ri = RevisionIndexCow::root(b);
    ri.bind(&mut kv, id, rev);
    record_committed_snapshot(&ri, &mut kv, b, 5);
    let epoch = cis_core::time_travel::resolve_epoch_for_wal_log(&kv, b, 5).unwrap();
    let key = cis_core::revision_cow::ris_snapshot_kv_key(b, epoch);
    let bytes = kv.get(&key).unwrap();
    kv.delete(&key);
    assert!(overlay_at_wal_log_at(&kv, b, 5, None).is_none());
    let at = overlay_at_wal_log_at(&kv, b, 5, Some(bytes)).unwrap();
    assert_eq!(at.resolved_bindings(), vec![(id, rev)]);
    assert!(overlay_at_wal_log_at(&kv, b, 6, Some(vec![])).is_none());
}

#[test]
fn a_text_is_found_in_the_first_place_that_has_it() {
    let rev = symbol(1, "a.f", "a.py", RevisionStatus::Active);
    let (t, from) = resolve_revision_body(
        Some("d\u{e9}f".as_bytes().to_vec()), None, None, None, &rev,
    );
    assert_eq!((t.as_str(), from), ("d\u{e9}f", BodySource::BodyStore));
    let (t, from) =
        resolve_revision_body(Some(vec![0xff, 0xfe]), Some(b"x".to_vec()), None, None, &rev);
    assert_eq!((t.as_str(), from), ("x", BodySource::CisBlob));
    let (t, from) = resolve_revision_body(None, Some(vec![]), None, Some("y".into()), &rev);
    assert_eq!((t.as_str(), from), ("y", BodySource::Disk));
    let (t, from) = resolve_revision_body(None, None, Some("".into()), None, &rev);
    assert_eq!((t.as_str(), from), ("a.f\na.py\n// (body not available)\n", BodySource::Stub));
    let (cut, truncated, omitted) = get_symbol_body("abcdefgh", 0, &CharApproxTokenizer);
    assert!(truncated);
    assert_eq!(omitted, 1);
    assert_eq!(cut, "abcd\n// ... [truncated, 1 tokens omitted]");
    let mut g = InMemoryGraph::new();
    g.put_revision(symbol(1, "a.py", "a.py", RevisionStatus::Tombstone));
    g.put_revision(symbol(2, "a.g", "a.py", RevisionStatus::Tombstone));
    g.put_revision(symbol(3, "a.h", "a.py", RevisionStatus::Active));
    let kept = removed_bodies(&g, main_branch());
    assert_eq!(kept.len(), 2);
    assert_eq!(kept[0].whole_file, Some("a.py".to_string()));
    assert_eq!(kept[1].whole_file, None);
    assert_eq!(kept[1].body_hash, [2u8; 32]);
}

#[test]
fn vectors_of_one_dimension_are_indexed_once() {
    let mut idx: FlatAnnIndex<f32> = FlatAnnIndex::new();
    idx.upsert([1u8; 32], vec![]);
    assert!(idx.is_empty());
    idx.upsert([1u8; 32], vec![1.0, 0.0]);
    idx.upsert([2u8; 32], vec![1.0, 0.0, 0.0]);
    idx.upsert([1u8; 32], vec![0.5, 0.5]);
    assert_eq!(idx.len(), 1);
    assert_eq!(idx.entry(0).1, &vec![0.5, 0.5]);
    assert!(idx.can_search(2, 1));
    assert!(!idx.can_search(3, 1));
    assert!(!idx.can_search(2, 0));
    idx.remove(&[1u8; 32]);
    assert!(idx.is_empty());
}

#[test]
fn names_are_counted_without_regard_to_case() {
    let mut g = InMemoryGraph::new();
    g.put_revision(symbol(1, "auth.AuthUser", "a.py", RevisionStatus::Active));
    g.put_revision(symbol(2, "game.board", "b.py", RevisionStatus::Active));
    let c = semantic_candidates(&g, main_branch(), "AUTH", &vec![[2u8; 32]]);
    assert_eq!(c.rows[0].matches, 2);
    assert_eq!(c.rows[1].matches, 0);
    assert_eq!((c.embedded_count, c.stale_count), (1, 1));
    assert_eq!(scored_places(&c.rows, &vec![[2u8; 32]]), vec![1]);
    assert_eq!(count_matches("aaaa", "aa"), 2);
}

#[test]
fn health_is_told_with_its_reasons() {
    let mut kv = MemoryKv::new();
    let fine = Findings { clean: true, any_stale: false };
    let h = system_health(&kv, HEALTHY, fine);
    assert!(h.healthy);
    assert!(h.degraded_modes.is_empty());
    let worse = Findings { clean: false, any_stale: true };
    let h = system_health(&kv, Shortages { disk_pressure: true, ..HEALTHY }, worse);
    assert!(!h.healthy);
    assert_eq!(h.degraded_modes, vec!["disk_pressure", "consistency_violations", "worker_stale"]);
    append_audit_epoch(&mut kv, 1, "gen\"esis", "op1");
    let v = verify_audit_chain(&kv);
    assert!(!v.ok);
    assert_eq!(v.message, "epoch 1: prev mismatch (expected \"\", got \"gen\\\"esis\")");
    assert_eq!(system_health(&kv, HEALTHY, fine).degraded_modes, vec!["audit_chain_broken"]);
    assert_eq!(
        index_modes(Shortages { lsp_active: false, ..HEALTHY }, false),
        vec!["lsp_unavailable", "index_not_bootstrapped"]
    );
    assert_eq!(consistency_modes(false), vec!["consistency_violations"]);
    assert!(consistency_modes(true).is_empty());
}

#[test]
fn settings_are_reported() {
    let mut kv = MemoryKv::new();
    let r = ingest_cis_config(
        "/repo",
        &kv,
        main_branch(),
        &ConfigFile::Missing,
        "",
        &ConfigFile::Refused("bad sum".to_string()),
        HEALTHY,
    );
    assert_eq!(r.grammar_lock_path, "/repo/.cis/grammar.lock");
    assert_eq!(r.ranking_policy_path, "/repo/.cis/ranking_policy.yaml");
    assert_eq!(r.grammar_python, None);
    assert!(!r.merge_in_progress);
    assert_eq!(r.grammar_lock.status, "missing_file");
    assert_eq!(r.ranking_policy.status, "validation_error");
    assert_eq!(r.ranking_policy.error, Some("bad sum".to_string()));
    assert_eq!(r.degraded_modes, vec!["ranking_policy_rejected"]);
    let r = ingest_cis_config(
        "/repo",
        &kv,
        main_branch(),
        &ConfigFile::Unreadable("io".to_string()),
        "0.23",
        &ConfigFile::Applied,
        HEALTHY,
    );
    assert_eq!(r.grammar_python, None);
    assert_eq!(r.grammar_lock.status, "read_error");
    assert!(r.ranking_policy.applied);
    assert_eq!(r.degraded_modes, vec!["grammar_lock_invalid"]);
    acquire_merge_lock(&mut kv, main_branch(), MergeId([1u8; 16])).unwrap();
    let r = ingest_cis_config(
        "/repo",
        &kv,
        main_branch(),
        &ConfigFile::Applied,
        "0.23",
        &ConfigFile::Missing,
        HEALTHY,
    );
    assert_eq!(r.grammar_python, Some("0.23".to_string()));
    assert!(r.merge_in_progress && r.degraded_modes.is_empty());
}

#[test]
fn the_index_is_counted() {
    let mut g = InMemoryGraph::new();
    let i = IdentityId([1u8; 16]);
    g.put_identity(NodeIdentity { identity_id: i, kind: NodeKind::Function });
    g.put_revision(symbol(1, "a.f", "a.py", RevisionStatus::Active));
    g.put_revision(symbol(2, "n", "notes.txt", RevisionStatus::Active));
    let r = NodeRevisionId([1u8; 16]);
    g.replace_edges_for_revision(r, vec![edge(4, r, i)]).unwrap();
    let c = index_counts(&g, &vec![[1u8; 32]]);
    assert_eq!(c.symbols_indexed, 2);
    assert_eq!(c.edges_indexed, 1);
    assert_eq!(c.files_scanned, 1);
    assert_eq!(c.embeddings_indexed, 1);
    assert_eq!(c.embeddings_stale, 1);
    let t = BranchReconciliationTracker::new();
    let s = reconciliation_status(&t, main_branch(), &vec![("main".to_string(), main_branch())]);
    assert!(!s.active_branch_pending);
    assert!(s.pending_branches.is_empty());
}

#[test]
fn files_of_a_walk_are_collected() {
    let met: Vec<String> =
        ["/r/a.py", "/r/b.ts", "/r/c.tsx", "/r/d.rs", "/r/e"].iter().map(|s| s.to_string()).collect();
    let mut out = vec![];
    collect_indexable_files(&met, &mut out);
    assert_eq!(out, vec!["/r/a.py", "/r/b.ts", "/r/c.tsx"]);
    let mut py = vec![];
    collect_py_files(&met, &mut py);
    assert_eq!(py, vec!["/r/a.py"]);
    assert_eq!(indexed_path("/r", "/r/a.py"), Some("a.py".to_string()));
    assert_eq!(indexed_path("/r", "/x/a.py"), None);
    let g = InMemoryGraph::new();
    assert!(needs_walk(&g, false));
}

#[test]
fn a_diff_with_large_numbers_is_still_applied() {
    let diff = "--- a/x\n+++ b/x\n@@ -1 +1 @@ fn f_12345678901234567890()\n-old\n+new\n";
    assert!(has_fitting_heads(diff));
    assert_eq!(apply_patch_text("old\n", diff).unwrap(), "new\n");
    let far = format!("--- a/x\n+++ b/x\n@@ -{0} +{0} @@\n-old\n+new\n", usize::MAX);
    assert!(has_fitting_heads(&far));
    assert_eq!(apply_patch_text("old\n", &far).unwrap(), "new\n");
    assert!(!has_fitting_heads(&format!("{far}@@ -1 +1 @@\n-a\n+b\n")));
    let near = format!("--- a/x\n+++ b/x\n@@ -1,1 +1 @@\n-old\n+new\n@@ -{0} +{0} @@\n-a\n+b\n", usize::MAX);
    assert!(has_fitting_heads(&near));
    assert_eq!(apply_patch_text("old\na\n", &near).unwrap(), "new\nb\n");
    let beyond = format!("--- a/x\n+++ b/x\n@@ -{0}0 +{0}0 @@\n-old\n+new\n", usize::MAX);
    assert!(has_fitting_heads(&beyond));
    assert!(matches!(apply_patch_text("old\n", &beyond), Err(AuthError::InvalidInput)));
}

#[test]
fn the_bytes_of_a_body_that_was_read_are_kept() {
    let text = || Some(b"def f(): pass".to_vec());
    assert_eq!(bytes_to_keep(&None, &text()), text());
    assert_eq!(bytes_to_keep(&text(), &Some(b"other".to_vec())), None);
    assert_eq!(bytes_to_keep(&None, &Some(vec![0xff])), None);
    assert_eq!(bytes_to_keep(&None, &None), None);
}
