use std::collections::HashMap;

use cis_core::ids::{BranchId, IdentityId, MergeId, NodeRevisionId};
use cis_core::keys::revision_binding_kv_key;
use cis_core::kv::MemoryKv;
use cis_core::merge_metrics::{
    list_merge_metrics, merge_metrics_path, read_merge_metrics, read_merge_metrics_filtered,
    record_of_recovery, rollup_merge_metrics, MergeMetricsRecord,
};
use cis_core::merge_recover::MergeRecoveryEntry;
use cis_core::metadata_store::{
    list_ris_snapshots, metadata_backend, open_metadata_store_if_enabled, MetadataBackendKind,
};
use cis_core::migration::{
    body_file_hash, migrate_kv_ris_to_sqlite, parse_ris_key, verify_body_migration,
    MigrateBodiesReport,
};
use cis_core::persistence::{
    check_version, cis_dir, hydrate_ris_rows, kv_snapshot_path, load_kv_snapshot,
    load_state_from_cis_dir, note_kv_loaded, save_kv_snapshot, snapshot_persist_enabled,
    temporary_file_name, Attempt, KvSnapshotFile,
};
use cis_core::policy_watcher::{ActiveRankingPolicy, PolicyFileReloader, PolicyReloadOutcome};
use cis_core::pre_write_snapshot::{restore_inline, PreWriteSnapshotStore, Restore};
use cis_core::ranking_policy::{
    fraction_name, merge_edge_type_weight_map, policy_half_life_ms, policy_version,
    EdgeTypeWeights, Fraction, FractionChecks, PolicyValidationError, RankingPolicy,
};
use cis_core::revision_cow::ris_snapshot_kv_key;
use cis_core::security::{AuthError, AuthProvider, Session};
use cis_core::graph::{
    EdgeResolution, EdgeType, GraphEdge, InMemoryGraph, Language, NodeIdentity, NodeKind,
    NodeRevision, RevisionStatus, SourceSpan, SourceType,
};
use cis_core::graph_snapshot::{load_graph_snapshot, save_graph_snapshot};
use cis_core::table::Table;
use cis_core::vector_snapshot::{load_vector_snapshot, save_vector_snapshot, VectorSnapshot};
use cis_core::vector_store::InMemoryVectorStore;

const IN_RANGE: FractionChecks = FractionChecks {
    axis_weights: true,
    min_path_confidence: true,
    structural_threshold: true,
    rename_min_confidence: true,
    body_similarity_threshold: true,
    name_proximity_threshold: true,
};

fn measured(hex: &str, started_at_ms: u64, a: u64, edges: usize) -> MergeMetricsRecord {
    let mut phases = Table::new();
    phases.insert("A".to_string(), a);
    MergeMetricsRecord {
        merge_id_hex: hex.repeat(16),
        started_at_ms,
        phase_durations_ms: phases,
        edges_regenerated: edges,
        dangling_edges_removed: 0,
        signature_reresolved: 0,
        cardinality_violations: vec![],
        resumed_from_phase: None,
        compensated: false,
    }
}

#[test]
fn append_and_read_roundtrip() {
    let mut phases = Table::new();
    phases.insert("Classifying".to_string(), 12);
    let rec = MergeMetricsRecord {
        merge_id_hex: "ab".repeat(16),
        started_at_ms: 1_000,
        phase_durations_ms: phases,
        edges_regenerated: 3,
        dangling_edges_removed: 1,
        signature_reresolved: 0,
        cardinality_violations: vec![],
        resumed_from_phase: None,
        compensated: false,
    };
    let rows = read_merge_metrics(vec![Some(rec)], 10);
    assert_eq!(rows.len(), 1);
    assert_eq!(rows[0].merge_id_hex, "ab".repeat(16));
    assert_eq!(rows[0].phase_durations_ms.get(&"Classifying".to_string()), Some(&12));
}

#[test]
fn rollup_computes_rates_and_slowest() {
    let mut second = measured("02", 2, 300, 4);
    second.cardinality_violations = vec!["x".to_string()];
    second.resumed_from_phase = Some("B".to_string());
    second.compensated = true;
    let records = vec![measured("01", 1, 100, 2), second];
    let rollup = rollup_merge_metrics(&records);
    assert_eq!(rollup.window_records, 2);
    assert!((rollup.compensated as f64 / rollup.window_records as f64 - 0.5).abs() < f64::EPSILON);
    assert!((rollup.resumed as f64 / rollup.window_records as f64 - 0.5).abs() < f64::EPSILON);
    assert_eq!(rollup.cardinality_violation_count, 1);
    assert_eq!(records[rollup.slowest_merges[0]].merge_id_hex, "02".repeat(16));
    assert_eq!(rollup.edges_regenerated, 6);
    assert_eq!(rollup.phases.len(), 1);
    assert_eq!(rollup.phases[0].times, vec![100, 300]);
    assert_eq!(rollup.phases[0].total, 400);
}

#[test]
fn only_recent_records_are_listed() {
    let mut auth = AuthProvider::new();
    auth.register(Session { id: 1, admin: false, repo_roots: vec![] });
    let read = || {
        vec![
            Some(measured("01", 10, 1, 0)),
            None,
            Some(measured("02", 20, 1, 0)),
            Some(measured("03", 30, 1, 0)),
        ]
    };
    let two = read_merge_metrics_filtered(read(), 2, None);
    assert_eq!(two.iter().map(|r| r.started_at_ms).collect::<Vec<u64>>(), vec![20, 30]);
    let late = read_merge_metrics_filtered(read(), 10, Some(20));
    assert_eq!(late.iter().map(|r| r.started_at_ms).collect::<Vec<u64>>(), vec![20, 30]);
    match list_merge_metrics(&auth, 1, read(), 0, None) {
        Ok(r) => assert_eq!(r.len(), 1),
        Err(_) => panic!(),
    }
    assert!(matches!(list_merge_metrics(&auth, 2, read(), 5, None), Err(AuthError::Unauthorized)));
    assert_eq!(merge_metrics_path("/r/.cis"), "/r/.cis/merge_metrics.jsonl");
}

#[test]
fn invalid_reload_leaves_policy_unchanged() {
    let mut p = ActiveRankingPolicy::new("2.0-test".to_string());
    assert_eq!(p.current, "2.0-test");
    let bad: Result<String, PolicyValidationError> = Err(PolicyValidationError::AxisWeightsSum);
    assert!(p.try_update(bad).is_err());
    assert_eq!(p.current, "2.0-test");
}

#[test]
fn policy_file_reloader_rejects_bad_file() {
    let mut r = PolicyFileReloader::new("v-good".to_string());
    assert_eq!(r.active.current, "v-good");
    let bad: Result<Result<String, PolicyValidationError>, String> =
        Ok(Err(PolicyValidationError::AxisWeightsSum));
    let out = r.reload_now(bad);
    assert!(matches!(out, PolicyReloadOutcome::RejectedInvalid(_)));
    assert_eq!(r.active.current, "v-good");
    let gone: Result<Result<String, PolicyValidationError>, String> = Err("gone".to_string());
    assert!(matches!(r.reload_now(gone), PolicyReloadOutcome::ReadError(_)));
    assert_eq!(r.active.current, "v-good");
}

#[test]
fn debounce_suppresses_immediate_second_reload() {
    let mut r = PolicyFileReloader::new("a".to_string());
    let t0: u64 = 1_000_000_000;
    let good: fn() -> Result<Result<String, String>, String> = || Ok(Ok("b".to_string()));
    assert!(r.on_file_event(t0));
    assert!(matches!(r.reload_now(good()), PolicyReloadOutcome::Applied));
    assert!(!r.on_file_event(t0 + 50_000_000));
    assert!(r.on_file_event(t0 + 300_000_000));
    assert!(matches!(r.reload_now(good()), PolicyReloadOutcome::Applied));
    assert_eq!(r.active.current, "b");
    let mut quick = PolicyFileReloader::with_debounce("a".to_string(), 10);
    assert!(quick.on_file_event(5));
    assert!(!quick.on_file_event(14));
    assert!(quick.on_file_event(15));
}

fn perform(files: &mut HashMap<String, Vec<u8>>, steps: Vec<Restore>) {
    for s in steps {
        match s {
            Restore::Write(path, bytes) => {
                files.insert(path, bytes);
            }
            Restore::Remove(path) => {
                files.remove(&path);
            }
        }
    }
}

#[test]
fn capture_restore_and_clear() {
    let mut store = PreWriteSnapshotStore::new("/tmp/x/.cis");
    store.capture_if_absent(1, "a.py", b"original".to_vec());
    store.capture_if_absent(1, "a.py", b"ignored".to_vec());
    let mut repo: HashMap<String, Vec<u8>> = HashMap::new();
    repo.insert("a.py".to_string(), b"modified".to_vec());
    perform(&mut repo, store.restore_patch(1));
    assert_eq!(repo["a.py"], b"original".to_vec());
    store.clear_patch(1);
    perform(&mut repo, store.restore_patch(1));
    assert_eq!(repo["a.py"], b"original".to_vec());
    assert_eq!(store.snapshot_file(1, "pkg/a.py"), "/tmp/x/.cis/pre_write_snapshots/1/pkg__a.py.bin");
    assert!(store.wants(1, "a.py"));
}

#[test]
fn restore_removes_new_file_when_pre_write_empty() {
    let mut store = PreWriteSnapshotStore::new("/tmp/x/.cis");
    store.capture_if_absent(2, "new.py", Vec::new());
    let mut repo: HashMap<String, Vec<u8>> = HashMap::new();
    repo.insert("new.py".to_string(), b"created".to_vec());
    perform(&mut repo, store.restore_patch(2));
    assert!(!repo.contains_key("new.py"));
    assert!(matches!(restore_inline("b.py", &vec![1]), Restore::Write(_, _)));
}

#[test]
fn default_validates() {
    RankingPolicy::default().validate(IN_RANGE).unwrap();
}

#[test]
fn rejects_bad_watermarks() {
    let mut p = RankingPolicy::default();
    p.embedding_queue_lwm = 5000;
    p.embedding_queue_hwm = 1000;
    assert!(p.validate(IN_RANGE).is_err());
}

#[test]
fn rejects_zero_tombstone_retention() {
    let mut p = RankingPolicy::default();
    p.tombstone_retention_days = 0;
    p.rename_detection_window_days = 0;
    assert!(matches!(
        p.validate(IN_RANGE),
        Err(PolicyValidationError::TombstoneRetentionZero(0))
    ));
}

#[test]
fn doc_policy_traceability_fr_1_13_fields_present() {
    let p = RankingPolicy::default();
    assert_eq!(p.tombstone_retention_days, 90);
    assert_eq!(p.time_travel_retention_days, 90);
    assert_eq!(p.rename_detection_window_days, 30);
}

#[test]
fn section_01_2_edge_type_weights_map() {
    let mut w = EdgeTypeWeights {
        calls: 0.2,
        imports: 0.2,
        extends: 0.2,
        uses: 0.2,
        configures: 0.2,
        co_located: 0.2,
        test_of: 0.2,
        renamed_from: 0.2,
    };
    let list = vec![
        ("CALLS".to_string(), 1.0),
        ("IMPORTS".to_string(), 0.9),
        ("TEST_OF".to_string(), 0.5),
        ("unheard_of".to_string(), 0.7),
        ("Co-Located".to_string(), 0.3),
    ];
    merge_edge_type_weight_map(&mut w, &list);
    assert!((w.calls - 1.0f64).abs() < 1e-9);
    assert!((w.imports - 0.9f64).abs() < 1e-9);
    assert!((w.test_of - 0.5f64).abs() < 1e-9);
    assert!((w.co_located - 0.3f64).abs() < 1e-9);
    assert!((w.uses - 0.2f64).abs() < 1e-9);
}

#[test]
fn each_fault_of_a_policy_is_named() {
    let p = RankingPolicy::default();
    let off = |c: FractionChecks| p.validate(c).unwrap_err();
    assert_eq!(
        off(FractionChecks { axis_weights: false, ..IN_RANGE }),
        PolicyValidationError::AxisWeightsSum
    );
    let fractions = [
        (FractionChecks { min_path_confidence: false, ..IN_RANGE }, Fraction::MinPathConfidence),
        (FractionChecks { structural_threshold: false, ..IN_RANGE }, Fraction::StructuralThreshold),
        (
            FractionChecks { rename_min_confidence: false, ..IN_RANGE },
            Fraction::RenameMinConfidence,
        ),
        (
            FractionChecks { body_similarity_threshold: false, ..IN_RANGE },
            Fraction::BodySimilarityThreshold,
        ),
        (
            FractionChecks { name_proximity_threshold: false, ..IN_RANGE },
            Fraction::NameProximityThreshold,
        ),
    ];
    for (c, field) in fractions {
        assert_eq!(off(c), PolicyValidationError::ProbabilityOutOfRange { field });
    }
    let mut q = RankingPolicy::default();
    q.disk_min_free_pct = 100;
    assert_eq!(q.validate(IN_RANGE), Err(PolicyValidationError::DiskMinFreePct(100)));
    let mut q = RankingPolicy::default();
    q.tombstone_retention_days = 29;
    assert_eq!(
        q.validate(IN_RANGE),
        Err(PolicyValidationError::TombstoneRetentionVsRenameWindow { retention: 29, window: 30 })
    );
    assert_eq!(fraction_name(Fraction::StructuralThreshold), "hybrid_search.structural_threshold");
    assert_eq!(policy_version(String::new()), "2.0");
    assert_eq!(policy_version("3".to_string()), "3");
    assert_eq!(policy_half_life_ms(&p.recency), 30 * 86_400_000);
}

#[test]
fn kv_snapshot_filters_ephemeral_keys() {
    let mut kv = MemoryKv::new();
    let b = BranchId([0u8; 16]);
    let ident = IdentityId([3u8; 16]);
    let rev = NodeRevisionId([4u8; 16]);
    kv.set(&revision_binding_kv_key(b, ident), rev.0.to_vec());
    kv.set("merge_lock:deadbeef", vec![1]);
    kv.set("wal:deadbeef", vec![1]);
    let prefixes = vec!["ri:".to_string(), "merge_lock:".to_string()];
    let file = save_kv_snapshot(&kv, &prefixes);
    let mut kv2 = MemoryKv::new();
    let n = load_kv_snapshot(&file, &mut kv2).unwrap();
    assert_eq!(n, 2);
    assert!(kv2.get("wal:deadbeef").is_none());
    assert_eq!(kv2.get("merge_lock:deadbeef"), Some(vec![1]));
    assert_eq!(kv2.get(&revision_binding_kv_key(b, ident)), Some(rev.0.to_vec()));
    let old = KvSnapshotFile { version: 99, entries: vec![("ri:x".to_string(), vec![1])] };
    assert!(load_kv_snapshot(&old, &mut kv2).is_err());
    assert!(kv2.get("ri:x").is_none());
}

#[test]
fn names_of_saved_files() {
    assert_eq!(cis_dir("/repo"), "/repo/.cis");
    assert_eq!(kv_snapshot_path("/repo/.cis"), "/repo/.cis/kv.json");
    assert_eq!(temporary_file_name("kv.json", 7, 3), "kv.json.7.3.tmp");
    assert!(check_version("graph", 1, 1).is_ok());
    assert!(check_version("graph", 2, 1).is_err());
    assert!(snapshot_persist_enabled(None));
    assert!(!snapshot_persist_enabled(Some("0")));
}

#[test]
fn what_was_loaded_is_reported() {
    let mut g = InMemoryGraph::new();
    let mut report = load_state_from_cis_dir(
        &mut g,
        Attempt::Failed("no database".to_string()),
        Attempt::Loaded(InMemoryGraph::new()),
        Attempt::Loaded(4),
    );
    assert!(report.graph_loaded);
    assert!(report.vector_loaded);
    assert_eq!(report.vector_chunks, 4);
    note_kv_loaded(&mut report, Attempt::Loaded(5), 2);
    assert!(report.kv_loaded);
    assert_eq!(report.kv_entries, 7);
    note_kv_loaded(&mut report, Attempt::Failed("torn".to_string()), 0);
    assert_eq!(report.kv_error, Some("torn".to_string()));
}

#[test]
fn snapshots_move_to_the_database_and_back() {
    let b = BranchId([7u8; 16]);
    let mut kv = MemoryKv::new();
    kv.set(&ris_snapshot_kv_key(b, 3), vec![1, 2]);
    kv.set("ris:nonsense", vec![9]);
    kv.set("other", vec![5]);
    assert_eq!(parse_ris_key(&ris_snapshot_kv_key(b, 3)), Some((b, 3)));
    assert_eq!(parse_ris_key("ris:nonsense"), None);
    let (rows, report) = migrate_kv_ris_to_sqlite(&mut kv, true);
    assert_eq!(rows, vec![(b, 3, vec![1, 2])]);
    assert_eq!(report.ris_keys_migrated, 1);
    assert!(kv.get(&ris_snapshot_kv_key(b, 3)).is_none());
    assert_eq!(kv.get("other"), Some(vec![5]));
    let stored = vec![(vec![7u8; 16], 3u64, vec![1u8, 2]), (vec![7u8; 4], 4, vec![])];
    let back = list_ris_snapshots(&stored);
    assert_eq!(back, vec![(b, 3, vec![1, 2])]);
    assert_eq!(hydrate_ris_rows(&back, &mut kv), 1);
    assert_eq!(hydrate_ris_rows(&back, &mut kv), 0);
    assert_eq!(kv.get(&ris_snapshot_kv_key(b, 3)), Some(vec![1, 2]));
}

#[test]
fn what_moved_reads_back_as_it_was() {
    let (a, b) = (BranchId([7u8; 16]), BranchId([8u8; 16]));
    let mut kv = MemoryKv::new();
    kv.set(&ris_snapshot_kv_key(a, 3), vec![1, 2]);
    kv.set(&ris_snapshot_kv_key(a, 4), vec![]);
    kv.set(&ris_snapshot_kv_key(b, 3), vec![6]);
    let (rows, report) = migrate_kv_ris_to_sqlite(&mut kv, false);
    assert_eq!((report.ris_keys_migrated, report.kv_json_stripped), (3, 0));
    assert_eq!(kv.scan_prefix("ris:").len(), 3);
    let (same, report) = migrate_kv_ris_to_sqlite(&mut kv, true);
    assert_eq!((report.ris_keys_migrated, report.kv_json_stripped), (3, 3));
    assert_eq!(same, rows);
    assert!(kv.scan_prefix("ris:").is_empty());
    assert_eq!(hydrate_ris_rows(&rows, &mut kv), 3);
    assert_eq!(kv.get(&ris_snapshot_kv_key(a, 3)), Some(vec![1, 2]));
    assert_eq!(kv.get(&ris_snapshot_kv_key(a, 4)), Some(vec![]));
    assert_eq!(kv.get(&ris_snapshot_kv_key(b, 3)), Some(vec![6]));
}

#[test]
fn where_metadata_is_kept() {
    assert_eq!(metadata_backend(Some("sqlite")), MetadataBackendKind::Sqlite);
    assert!(metadata_backend(None) != MetadataBackendKind::Sqlite);
    assert_eq!(
        open_metadata_store_if_enabled(MetadataBackendKind::Sqlite, "/r/.cis"),
        Some("/r/.cis/store.db".to_string())
    );
    assert_eq!(open_metadata_store_if_enabled(metadata_backend(None), "/r/.cis"), None);
}

#[test]
fn bodies_are_counted_as_they_move() {
    let mut r = MigrateBodiesReport::default();
    r.note_body(false, true, true);
    r.note_body(true, true, false);
    assert_eq!(r.files_scanned, 2);
    assert_eq!(r.inserted, 1);
    assert_eq!(r.skipped_existing, 1);
    assert_eq!(r.verified, 2);
    assert_eq!(r.files_deleted, 1);
    let name = "0a".repeat(31);
    let h = body_file_hash(&b"ff".to_vec(), &name.into_bytes()).unwrap();
    assert_eq!(h[0], 255);
    assert_eq!(h[1], 10);
    assert_eq!(body_file_hash(&b"ff".to_vec(), &b"x.tmp".to_vec()), None);
}

#[test]
fn a_recovered_merge_is_measured() {
    let r = record_of_recovery(
        &MergeRecoveryEntry {
            merge_id: MergeId([0xabu8; 16]),
            resumed_from_phase: Some("Promoting".to_string()),
            compensated: false,
            edges_regenerated: 4,
            dangling_edges_removed: 3,
            signature_reresolved: 2,
            cardinality_violations: vec!["v".to_string()],
        },
        77,
    );
    assert_eq!(r.merge_id_hex, "ab".repeat(16));
    assert_eq!(r.started_at_ms, 77);
    assert_eq!(r.phase_durations_ms.len(), 0);
    assert_eq!(r.resumed_from_phase, Some("Promoting".to_string()));
    assert_eq!((r.edges_regenerated, r.dangling_edges_removed, r.signature_reresolved), (4, 3, 2));
    assert_eq!(r.cardinality_violations, vec!["v"]);
}

#[test]
fn bodies_in_files_and_in_the_database_are_counted() {
    let in_files = vec![[1u8; 32], [2u8; 32]];
    let in_database = vec![[1u8; 32]];
    assert_eq!(verify_body_migration(&in_files, Some(&in_database)), (2, 1));
    assert_eq!(verify_body_migration(&in_files, None), (2, 0));
}

fn id(b: u8) -> IdentityId {
    let mut x = [0u8; 16];
    x[15] = b;
    IdentityId(x)
}

fn rid(b: u8) -> NodeRevisionId {
    let mut x = [0u8; 16];
    x[14] = b;
    NodeRevisionId(x)
}

fn one_edge_graph() -> InMemoryGraph {
    let mut g = InMemoryGraph::new();
    let i = id(1);
    g.put_identity(NodeIdentity { identity_id: i, kind: NodeKind::Function });
    let r = rid(1);
    g.put_revision(NodeRevision {
        revision_id: r,
        identity_id: i,
        branch_id: BranchId([0u8; 16]),
        status: RevisionStatus::Active,
        qualified_name: "f".into(),
        file_path: "a.py".into(),
        body_hash: [1u8; 32],
        signature_hash: [2u8; 32],
        language: Language::Python,
        parent_revision_id: None,
        rename_source_id: None,
        tombstoned_at_ms: None,
        span: SourceSpan::unknown(),
    });
    let edge = GraphEdge {
        edge_id: [9u8; 16],
        ty: EdgeType::Calls,
        source_revision_id: r,
        target_identity_id: id(2),
        resolution: EdgeResolution {
            target_signature_hash: [3u8; 32],
            resolver: SourceType::Ast,
            last_validation_ms: 0,
        },
        anchor: SourceSpan::unknown(),
    };
    g.replace_edges_for_revision(r, vec![edge]).unwrap();
    g
}

#[test]
fn graph_snapshot_roundtrip_on_disk() {
    let snap = save_graph_snapshot(&one_edge_graph(), 1);
    let g2 = load_graph_snapshot(&snap, 1).unwrap();
    assert_eq!(g2.identity_count(), 1);
    assert_eq!(g2.revision_count(), 1);
    assert_eq!(g2.outbound_edges(rid(1)).len(), 1);
    assert!(g2.source_identities_targeting(id(2)).contains(&id(1)));
}

#[test]
fn a_saved_graph_is_read_as_it_was_or_refused() {
    let mut g = one_edge_graph();
    let b = BranchId([4u8; 16]);
    g.record_hub_id(b, "a.py", rid(7));
    let mut snap = save_graph_snapshot(&g, 3);
    let back = load_graph_snapshot(&snap, 3).unwrap();
    assert_eq!(back.hub_id(b, "a.py"), Some(rid(7)));
    assert_eq!(back.identity_kind(id(1)), Some(NodeKind::Function));
    let rev = back.get_revision(rid(1)).unwrap();
    assert_eq!((rev.qualified_name.as_str(), rev.body_hash), ("f", [1u8; 32]));
    assert_eq!(back.outbound_edges(rid(1))[0].edge_id, [9u8; 16]);
    let refused = load_graph_snapshot(&snap, 4).err();
    assert_eq!(refused, Some("unsupported graph snapshot version 3 (want 4)".to_string()));
    snap.revisions.clear();
    assert_eq!(load_graph_snapshot(&snap, 3).err(), Some("unknown revision".to_string()));
}

#[test]
fn saved_chunks_are_restored() {
    let mut store = InMemoryVectorStore::new();
    store.upsert([1u8; 32]);
    store.upsert([2u8; 32]);
    store.upsert([1u8; 32]);
    let snap: VectorSnapshot<f32> = save_vector_snapshot(&store);
    assert_eq!(snap.chunk_count(), 2);
    let mut other = InMemoryVectorStore::new();
    other.upsert([3u8; 32]);
    load_vector_snapshot(snap).unwrap().restore_into(&mut other);
    assert!(other.has(&[1u8; 32]) && other.has(&[2u8; 32]) && !other.has(&[3u8; 32]));
    let old = VectorSnapshot::V1 { version: 1, chunks: vec![([5u8; 32], vec![0.5f32])] };
    let old = load_vector_snapshot(old).unwrap();
    assert_eq!(old.chunk_count(), 1);
    old.restore_into(&mut other);
    assert!(other.has(&[5u8; 32]) && !other.has(&[1u8; 32]));
    let odd: VectorSnapshot<f32> = VectorSnapshot::V1 { version: 2, chunks: vec![] };
    assert_eq!(
        load_vector_snapshot(odd).err(),
        Some("unsupported vector snapshot version 2 (want 1)".to_string())
    );
    let odd: VectorSnapshot<f32> = VectorSnapshot::V2 { version: 9, chunks: vec![] };
    assert_eq!(
        load_vector_snapshot(odd).err(),
        Some("unsupported vector snapshot version 9 (want 2)".to_string())
    );
}
