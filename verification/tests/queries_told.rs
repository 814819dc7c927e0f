use cis_core::graph::{
    EdgeResolution, EdgeType, GraphEdge, InMemoryGraph, Language, NodeIdentity, NodeKind,
    NodeRevision, RevisionStatus, SourceSpan, SourceType,
};
use cis_core::hex::hex16;
use cis_core::ids::{BranchId, IdentityId, MergeId, NodeRevisionId};
use cis_core::kv::MemoryKv;
use cis_core::language_indexer::LanguageIndexer;
use cis_core::optimistic_patcher::OptimisticPatcher;
use cis_core::path_lease::{PathLeaseManager, SessionId, SpeculativePathTracker};
use cis_core::queries::{
    expand_context, explain_context, file_imports, find_references, get_callers, get_dependencies,
    go_to_definition, hit_from_rev_and_edge, resolve_revision_for_query, resolve_target_revision,
    revision_at_log, why_no_definition,
};
use cis_core::query_engine::{count_pruned_expand_neighbors, inbound_edges, AnyPath, PathTest};
use cis_core::reconciliation::{ConsistencyFinding, PeriodicReconciler};
use cis_core::revision_cow::RevisionIndexCow;
use cis_core::revision_index::RevisionIndex;
use cis_core::revision_lineage::{lineage_for_identity, LineageOptions};
use cis_core::rust_indexer::RustIndexer;
use cis_core::saga::{MergeSagaOrchestrator, SagaPhase};
use cis_core::security::{AuthError, AuthProvider, QuotaTracker, Session};
use cis_core::status::{system_status, Findings, Shortages};
use cis_core::time_travel::record_committed_snapshot;
use cis_core::tombstone_gc::{GraphDeleteQueue, TombstoneGcWorker};
use cis_core::tracker::BranchReconciliationTracker;
use cis_core::vector_store::InMemoryVectorStore;
use cis_core::wal::{MutationIndex, MutationLog};

fn main_branch() -> BranchId {
    BranchId([0u8; 16])
}

fn rid(n: u8) -> NodeRevisionId {
    NodeRevisionId([n; 16])
}

fn iid(n: u8) -> IdentityId {
    IdentityId([n; 16])
}

fn put(g: &mut InMemoryGraph, n: u8, name: &str, path: &str) {
    g.put_identity(NodeIdentity { identity_id: iid(n), kind: NodeKind::Function });
    g.put_revision(NodeRevision {
        revision_id: rid(n),
        identity_id: iid(n),
        branch_id: main_branch(),
        status: RevisionStatus::Active,
        qualified_name: name.into(),
        file_path: path.into(),
        body_hash: [n; 32],
        signature_hash: [0u8; 32],
        language: Language::Python,
        parent_revision_id: None,
        rename_source_id: None,
        tombstoned_at_ms: None,
        span: SourceSpan { start_line: 3, start_col: 1, end_line: 4, end_col: 9 },
    });
}

fn edge(id: u8, ty: EdgeType, source: u8, target: u8) -> GraphEdge {
    GraphEdge {
        edge_id: [id; 16],
        ty,
        source_revision_id: rid(source),
        target_identity_id: iid(target),
        resolution: EdgeResolution {
            target_signature_hash: [0u8; 32],
            resolver: SourceType::Ast,
            last_validation_ms: 0,
        },
        anchor: SourceSpan { start_line: 7, start_col: 2, end_line: 7, end_col: 6 },
    }
}

/// `a.f` calls `b.g`; the file `a.py` imports `b.g`; `b.g` calls what is not there.
fn small_graph() -> InMemoryGraph {
    let mut g = InMemoryGraph::new();
    put(&mut g, 1, "a.f", "a.py");
    put(&mut g, 2, "b.g", "b.py");
    put(&mut g, 3, "a.py", "a.py");
    g.put_identity(NodeIdentity { identity_id: iid(3), kind: NodeKind::File });
    g.record_hub_id(main_branch(), "a.py", rid(3));
    g.replace_edges_for_revision(rid(1), vec![edge(11, EdgeType::Calls, 1, 2)]).unwrap();
    g.replace_edges_for_revision(rid(2), vec![edge(12, EdgeType::Calls, 2, 9)]).unwrap();
    g.replace_edges_for_revision(rid(3), vec![edge(13, EdgeType::Imports, 3, 2)]).unwrap();
    g
}

#[test]
fn references_and_callers_are_found() {
    let g = small_graph();
    let kv = MemoryKv::new();
    let b = main_branch();
    let refs = find_references(&g, &kv, b, &hex16(&rid(2).0), 10).unwrap();
    let mut ids: Vec<NodeRevisionId> = refs.iter().map(|(r, _)| *r).collect();
    ids.sort_by_key(|r| r.0);
    assert_eq!(ids, vec![rid(1), rid(3)]);
    assert_eq!(find_references(&g, &kv, b, &hex16(&rid(2).0), 1).unwrap().len(), 1);
    let callers = get_callers(&g, &kv, b, &hex16(&iid(2).0), 10).unwrap();
    assert_eq!(callers.len(), 1);
    assert_eq!(callers[0].0, rid(1));
    let hit =
        hit_from_rev_and_edge(g.get_revision(rid(1)).unwrap(), callers[0].1.as_ref().unwrap());
    assert_eq!(hit.qualified_name, "a.f");
    assert_eq!((hit.start_line, hit.end_col), (7, 6));
    assert_eq!(hit.edge_type, Some("Calls".to_string()));
    assert!(matches!(find_references(&g, &kv, b, "zz", 1), Err(AuthError::InvalidInput)));
    assert!(matches!(get_callers(&g, &kv, b, "zz", 1), Err(AuthError::InvalidInput)));
    let arriving = inbound_edges(&g, &kv, &vec![b], iid(2), None);
    assert_eq!(arriving.len(), 2);
}

#[test]
fn dependencies_and_imports_are_found() {
    let g = small_graph();
    let kv = MemoryKv::new();
    let b = main_branch();
    let deps = get_dependencies(&g, &kv, b, &vec![b], &hex16(&rid(1).0), 10).unwrap();
    assert_eq!(deps[0].0, rid(2));
    assert_eq!(deps.len(), 1);
    let (hub, imports) = file_imports(&g, &kv, &vec![b], " ./a.py ", 10).unwrap();
    assert_eq!(hub, rid(3));
    assert_eq!(imports.len(), 1);
    assert_eq!(imports[0].0, rid(2));
    let out = file_imports(&g, &kv, &vec![b], "nowhere.py", 10);
    assert!(matches!(out, Err(AuthError::InvalidInput)));
}

#[test]
fn a_definition_is_found_or_missed_for_a_reason() {
    let g = small_graph();
    let kv = MemoryKv::new();
    let b = main_branch();
    let chain = vec![b];
    let to = go_to_definition(&g, &kv, b, &chain, &hex16(&rid(1).0)).unwrap().unwrap();
    assert_eq!(to.revision_id, rid(2));
    assert!(go_to_definition(&g, &kv, b, &chain, &hex16(&rid(2).0)).unwrap().is_none());
    let (n, reasons) = why_no_definition(&g, &kv, b, &chain, &hex16(&rid(2).0), false).unwrap();
    assert_eq!(n, 1);
    assert_eq!(reasons, vec!["target_identity_without_active_revision"]);
    let mut lone = InMemoryGraph::new();
    put(&mut lone, 5, "c.h", "c.py");
    let (n, reasons) = why_no_definition(&lone, &kv, b, &chain, &hex16(&rid(5).0), true).unwrap();
    assert_eq!(n, 0);
    assert_eq!(
        reasons,
        vec!["index_mode_regex_limits_call_precision", "no_outbound_definition_edges"]
    );
}

#[test]
fn a_revision_is_explained() {
    let g = small_graph();
    let kv = MemoryKv::new();
    let b = main_branch();
    let chain = vec![b];
    let x = explain_context(&g, &kv, &AnyPath, b, &chain, &hex16(&rid(2).0), 100, 9).unwrap();
    assert_eq!(x.outbound, 1);
    assert_eq!(x.inbound, 2);
    assert_eq!(x.counts.stale_count, 0);
    assert_eq!(x.counts.pruned_low_confidence_count, 2);
    assert_eq!(x.degraded_modes, vec!["dangling_edges"]);
    assert!(x.notes.contains("outbound_edges=1; inbound_source_identities=2; budget_tokens=100"));
    let never = PathTest(|_: &Vec<GraphEdge>| false);
    assert_eq!(count_pruned_expand_neighbors(&g, &kv, &never, &chain, rid(1), 2), 2);
    let x = explain_context(&g, &kv, &never, b, &chain, &hex16(&rid(1).0), 100, 9).unwrap();
    assert_eq!(x.counts.pruned_low_confidence_count, 2);
}

#[test]
fn a_target_is_named_by_its_id_or_its_name() {
    let g = small_graph();
    let b = main_branch();
    let pairs = vec![(iid(1), rid(1)), (iid(2), rid(2))];
    assert_eq!(resolve_target_revision(" b.g ", b, &pairs, &g), Some(rid(2)));
    assert_eq!(resolve_target_revision(&hex16(&rid(1).0), b, &pairs, &g), Some(rid(1)));
    assert_eq!(resolve_target_revision(&hex16(&rid(3).0), b, &pairs, &g), None);
    let by_id = resolve_revision_for_query(&g, Some(&hex16(&rid(1).0)), None, b).unwrap();
    assert_eq!(by_id.qualified_name, "a.f");
    let by_name = resolve_revision_for_query(&g, None, Some("b.g"), b).unwrap();
    assert_eq!(by_name.revision_id, rid(2));
    assert!(resolve_revision_for_query(&g, None, None, b).is_err());
    let steps = lineage_for_identity(&g, &vec![b], iid(1), None, &LineageOptions::default());
    assert_eq!(steps.unwrap().len(), 1);
}

#[test]
fn a_session_that_ends_leaves_no_patch() {
    let mut p = OptimisticPatcher::new(PathLeaseManager::new(), SpeculativePathTracker::new());
    let a = p.apply_speculative(SessionId(1), vec!["x.py".into()], None).unwrap();
    p.apply_speculative(SessionId(2), vec!["y.py".into()], None).unwrap();
    assert_eq!(p.all_open_paths(), vec!["x.py".to_string(), "y.py".to_string()]);
    assert_eq!(p.same_session_open_patches_for_path(SessionId(1), "x.py", "/r"), vec![a]);
    assert_eq!(p.leases().active_paths().len(), 2);
    assert!(p.expired_patch_ids(3600).is_empty());
    assert_eq!(p.revert_session(SessionId(1)), 1);
    assert_eq!(p.all_open_paths(), vec!["y.py".to_string()]);
    assert!(p.leases().holder("x.py").is_none());
}

#[test]
fn a_path_is_counted_once_for_each_patch_that_touches_it() {
    let mut p = OptimisticPatcher::new(PathLeaseManager::new(), SpeculativePathTracker::new());
    p.apply_speculative(SessionId(1), vec!["x.py".into(), "y.py".into()], None).unwrap();
    p.apply_speculative(SessionId(1), vec!["x.py".into()], None).unwrap();
    p.apply_speculative(SessionId(2), vec!["z.py".into()], None).unwrap();
    let mut counts = p.path_refcounts();
    counts.sort();
    let named = |n: &str, c: u32| (n.to_string(), c);
    assert_eq!(counts, vec![named("x.py", 2), named("y.py", 1), named("z.py", 1)]);
    let mut paths = p.all_open_paths();
    paths.sort();
    assert_eq!(paths, counts.iter().map(|(q, _)| q.clone()).collect::<Vec<_>>());
    assert_eq!(p.revert_session(SessionId(1)), 2);
    assert_eq!(p.path_refcounts(), vec![named("z.py", 1)]);
    assert_eq!(p.spec_tracker().path_counts(), vec![named("z.py", 1)]);
}

#[test]
fn a_round_of_reconciliation_is_told() {
    let r = PeriodicReconciler::new(60);
    let saga = MergeSagaOrchestrator::new();
    let mut kv = MemoryKv::new();
    let wal = MutationLog::new();
    let mut index = MutationIndex::new();
    let mut g = InMemoryGraph::new();
    let mut v = InMemoryVectorStore::new();
    let look = |_: &InMemoryGraph, _: &MemoryKv| ConsistencyFinding {
        clean: true,
        summary: "all in order".to_string(),
    };
    let (start, merges, lines) = r.run_once(
        &saga, &mut kv, &wal, 0, &mut index, &mut g, &vec![], &mut v, &vec![], look,
    );
    assert_eq!(start.in_flight_wal_records, 0);
    assert_eq!(merges.resumed, 0);
    assert_eq!(merges.compensated, 0);
    assert_eq!(start.consistency.unwrap().summary, "all in order");
    assert!(lines.is_empty());
}

#[test]
fn what_is_not_in_order_comes_between_merges_and_sagas() {
    let r = PeriodicReconciler::default();
    assert_eq!(r.interval_secs, 3600);
    let saga = MergeSagaOrchestrator::new();
    let mut kv = MemoryKv::new();
    saga.persist(&mut kv, MergeId([8u8; 16]), SagaPhase::Intent);
    let wal = MutationLog::new();
    let mut index = MutationIndex::new();
    let mut g = InMemoryGraph::new();
    put(&mut g, 1, "a.f", "a.py");
    let mut v = InMemoryVectorStore::new();
    let look = |g: &InMemoryGraph, kv: &MemoryKv| ConsistencyFinding {
        clean: false,
        summary: format!("{} revisions, {} sagas", g.revisions().len(), kv.scan_prefix("saga_").len()),
    };
    let (start, merges, lines) = r.run_once(
        &saga, &mut kv, &wal, 2, &mut index, &mut g, &vec![], &mut v, &vec![], look,
    );
    assert_eq!(start.sagas_compensated, 1);
    assert_eq!(merges.compensated, 0);
    assert_eq!(
        lines,
        vec![
            "consistency_check 1 revisions, 0 sagas".to_string(),
            "periodic_reconcile sagas=1 wal_replayed=2 inflight=0".to_string(),
        ]
    );
}

#[test]
fn the_system_tells_how_it_does() {
    let mut auth = AuthProvider::new();
    auth.register(Session { id: 1, admin: false, repo_roots: vec![] });
    let kv = MemoryKv::new();
    let mut quota = QuotaTracker::new(2);
    quota.acquire_query(1).unwrap();
    let mut t = BranchReconciliationTracker::new();
    let b = main_branch();
    t.register(b, 4);
    let s = Shortages { lsp_active: true, disk_pressure: false, vector_degraded: true };
    let f = Findings { clean: true, any_stale: false };
    let branches = vec![("main".to_string(), b), ("x".to_string(), BranchId([1u8; 16]))];
    let st = system_status(&auth, &kv, &quota, &t, 1, b, &branches, s, f, 7, "draining").unwrap();
    assert!(st.health.healthy);
    assert_eq!((st.quota.active, st.quota.max), (1, 2));
    assert_eq!((st.vector.queue_depth, st.vector.queue_state.as_str()), (7, "draining"));
    assert!(st.reconciliation.active_branch_pending);
    assert_eq!(st.reconciliation.pending_branches, vec!["main"]);
    assert!(!st.merge_in_progress);
    let out = system_status(&auth, &kv, &quota, &t, 2, b, &branches, s, f, 7, "draining");
    assert!(matches!(out, Err(AuthError::Unauthorized)));
}

#[test]
fn bindings_of_a_branch_are_listed() {
    let mut kv = MemoryKv::new();
    let mut ri = RevisionIndex::new(main_branch(), &kv);
    ri.bind(&mut kv, iid(1), rid(1));
    assert_eq!(ri.scan_branch(), vec![(iid(1), rid(1))]);
    assert_eq!(ri.as_cow().branch_id(), main_branch());
    let mut queue = GraphDeleteQueue::new();
    let gc = TombstoneGcWorker::from_policy(90);
    gc.enqueue_deletes(&vec![rid(1), rid(2)], &mut queue, main_branch());
    assert_eq!(queue.depth(), 2);
}

#[test]
fn an_indexer_knows_its_files() {
    let r = RustIndexer;
    assert_eq!(r.language(), Language::Rust);
    assert_eq!(r.file_extension(), "rs");
}

#[test]
fn a_walk_is_told_up_to_a_limit() {
    let g = small_graph();
    let kv = MemoryKv::new();
    let chain = vec![main_branch()];
    let (hits, pruned) =
        expand_context(&g, &kv, &AnyPath, &chain, &hex16(&rid(1).0), 2, 10).unwrap();
    assert_eq!(hits[0].qualified_name, "a.f");
    assert!(hits.iter().any(|h| h.qualified_name == "b.g"));
    assert_eq!(pruned, 1);
    let (hits, _) = expand_context(&g, &kv, &AnyPath, &chain, &hex16(&rid(1).0), 2, 1).unwrap();
    assert_eq!(hits.len(), 1);
    let out = expand_context(&g, &kv, &AnyPath, &chain, "nothing", 2, 1);
    assert!(matches!(out, Err(AuthError::InvalidInput)));
}

#[test]
fn a_name_stands_for_what_was_bound_then() {
    let g = small_graph();
    let mut kv = MemoryKv::new();
    let b = main_branch();
    let mut ri = RevisionIndexCow::root(b);
    ri.bind(&mut kv, iid(2), rid(2));
    record_committed_snapshot(&ri, &mut kv, b, 5);
    assert_eq!(revision_at_log(&g, &kv, b, "b.g", 5, None).unwrap().revision_id, rid(2));
    assert!(matches!(revision_at_log(&g, &kv, b, "a.f", 5, None), Err(AuthError::InvalidInput)));
    assert!(matches!(revision_at_log(&g, &kv, b, "b.g", 6, None), Err(AuthError::InvalidInput)));
}

#[test]
fn a_patch_that_is_closed_gives_its_paths_back() {
    let mut p = OptimisticPatcher::new(PathLeaseManager::new(), SpeculativePathTracker::new());
    let other = p.apply_speculative(SessionId(2), vec!["y.py".into()], None).unwrap();
    let counts = p.spec_tracker().path_counts();
    let id = p.apply_speculative(SessionId(1), vec!["x.py".into(), "a.py".into()], None).unwrap();
    assert_eq!(p.peek_patch_paths(id), vec!["a.py".to_string(), "x.py".to_string()]);
    assert!(p.spec_tracker().intersects(&vec!["x.py".to_string()]));
    p.revert(id, SessionId(1)).unwrap();
    assert_eq!(p.spec_tracker().path_counts(), counts);
    assert!(p.leases().holder("x.py").is_none());
    assert_eq!(p.leases().holder("y.py"), Some(SessionId(2)));
    assert_eq!(p.open_patch_count(), 1);
    assert_eq!(p.patch_session(other), Some(SessionId(2)));
}
