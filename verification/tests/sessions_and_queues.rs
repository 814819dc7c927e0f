use cis_core::audit::{append_audit_epoch, verify_audit_chain, AuditLog, ProductionAuditSink};
use cis_core::kv::MemoryKv;
use cis_core::path_lease::{LeaseError, PathLeaseManager, SessionId, SpeculativePathTracker};
use cis_core::security::{AuthError, AuthProvider, QuotaError, QuotaGuard, QuotaTracker, Session};
use cis_core::vector_cleanup_queue::VectorCleanupQueue;
use cis_core::vector_cleanup_worker::VectorCleanupWorker;
use cis_core::vector_store::{FlakyVectorStore, InMemoryVectorStore};

#[test]
fn lease_serializes_same_path() {
    let mut m = PathLeaseManager::new();
    m.acquire("src/a.py", SessionId(1)).unwrap();
    assert!(matches!(
        m.acquire("src/a.py", SessionId(2)),
        Err(LeaseError::Conflict { .. })
    ));
    m.release("src/a.py", SessionId(1));
    m.acquire("src/a.py", SessionId(2)).unwrap();
}

#[test]
fn spec_tracker_for_merge() {
    let mut t = SpeculativePathTracker::new();
    t.register("b.rs");
    assert!(t.intersects(&vec!["b.rs".into()]));
    assert!(!t.intersects(&vec!["c.rs".into()]));
}

#[test]
fn spec_tracker_refcount_survives_partial_unregister() {
    let mut t = SpeculativePathTracker::new();
    t.register("src/a.py");
    t.register("src/a.py");
    t.unregister("src/a.py");
    assert!(
        t.intersects(&vec!["src/a.py".into()]),
        "path should remain speculative while a second patch references it"
    );
    t.unregister("src/a.py");
    assert!(
        !t.intersects(&vec!["src/a.py".into()]),
        "path should be cleared after all patches unregister"
    );
}

#[test]
fn auth_path_rejects_dotdot() {
    let mut a = AuthProvider::new();
    a.register(Session { id: 1, admin: false, repo_roots: vec!["/repo".into()] });
    assert!(a.validate_path(1, "/repo/../etc").is_err());
}

#[test]
fn sessions_are_asked_for() {
    let mut a = AuthProvider::new();
    a.register(Session { id: 1, admin: false, repo_roots: vec!["/repo".into()] });
    a.register(Session { id: 2, admin: true, repo_roots: vec![] });
    assert!(a.validate_path(1, "/repo/src/a.py").is_ok());
    assert_eq!(a.validate_path(1, "/etc/passwd"), Err(AuthError::Forbidden));
    assert!(matches!(a.require_session(9), Err(AuthError::Unauthorized)));
    assert!(matches!(a.require_admin(1), Err(AuthError::Forbidden)));
    assert!(a.require_admin(2).is_ok());
}

#[test]
fn audit_fifo() {
    let mut al = AuditLog::new();
    al.record_sync(9, "write_file");
    let r = al.drained_local();
    assert_eq!(r.len(), 1);
    assert_eq!(r[0].session_id, 9);
}

#[test]
fn audit_chain_kv() {
    let mut kv = MemoryKv::new();
    let d = append_audit_epoch(&mut kv, 1, "genesis", "op1");
    assert!(!d.is_empty());
    assert!(kv.get("audit:epoch:00000000000000000001").is_some());
}

#[test]
fn production_audit_epoch_seal() {
    let mut kv = MemoryKv::new();
    let mut sink = ProductionAuditSink::with_options("cis-epoch/audit.jsonl", 0, 1);
    sink.record_written();
    let d1 = sink.maybe_seal_epoch(&mut kv).expect("seal");
    assert!(!d1.is_empty());
    sink.record_written();
    let d2 = sink.maybe_seal_epoch(&mut kv).expect("seal2");
    assert_ne!(d1, d2);
    let v = verify_audit_chain(&kv);
    assert!(v.ok, "{}", v.message);
    assert_eq!(v.chain_length, 2);
}

#[test]
fn production_audit_resume_from_kv() {
    let mut kv = MemoryKv::new();
    let d1 = append_audit_epoch(&mut kv, 1, "", "epoch1");
    append_audit_epoch(&mut kv, 2, &d1, "epoch2");
    let mut sink = ProductionAuditSink::new("cis-resume/audit.jsonl");
    sink.resume_from_kv(&kv);
    sink.record_written();
    let d3 = sink.maybe_seal_epoch(&mut kv).expect("seal after resume");
    let v = verify_audit_chain(&kv);
    assert!(v.ok, "{}", v.message);
    assert_eq!(v.chain_length, 3);
    assert_ne!(d3, d1);
}

#[test]
fn verify_audit_chain_detects_tamper() {
    let mut kv = MemoryKv::new();
    let _ = append_audit_epoch(&mut kv, 1, "", "genesis");
    kv.set(
        "audit:epoch:00000000000000000001",
        br#"{"prev":"","digest":"bad","summary":"genesis"}"#.to_vec(),
    );
    let v = verify_audit_chain(&kv);
    assert!(!v.ok);
}

#[test]
fn empty_audit_chain_is_in_order() {
    let v = verify_audit_chain(&MemoryKv::new());
    assert!(v.ok);
    assert_eq!(v.chain_length, 0);
}

#[test]
fn audit_chain_broken_link_is_found() {
    let mut kv = MemoryKv::new();
    let _ = append_audit_epoch(&mut kv, 1, "", "one");
    let _ = append_audit_epoch(&mut kv, 2, "nonsense", "two");
    let v = verify_audit_chain(&kv);
    assert!(!v.ok);
    assert_eq!(v.broken_at_epoch, Some(2));
}

#[test]
fn quota_429_semantics() {
    let mut q = QuotaTracker::new(1);
    assert!(q.acquire_query(1).is_ok());
    assert_eq!(q.acquire_query(1), Err(QuotaError::TooManyConcurrentQueries));
    q.release_query(1);
    assert!(q.acquire_query(1).is_ok());
}

#[test]
fn quota_guard_raii() {
    let mut q = QuotaTracker::new(1);
    {
        let g = QuotaGuard::acquire(&mut q, 7).unwrap();
        assert_eq!(q.acquire_query(7), Err(QuotaError::TooManyConcurrentQueries));
        g.release(&mut q);
    }
    assert!(q.acquire_query(7).is_ok());
}

#[test]
fn fifo() {
    let mut q = VectorCleanupQueue::new();
    q.enqueue_delete([1u8; 32]);
    q.enqueue_delete([2u8; 32]);
    assert_eq!(q.dequeue(), Some([1u8; 32]));
    assert_eq!(q.dequeue(), Some([2u8; 32]));
}

#[test]
fn persistent_survives_reopen() {
    let mut q = VectorCleanupQueue::new();
    q.enqueue_delete([9u8; 32]);
    q.enqueue_delete([8u8; 32]);
    let lines = q.to_lines();
    let mut q2 = VectorCleanupQueue::from_lines(&lines).unwrap();
    assert_eq!(q2.depth(), 2);
    assert_eq!(q2.dequeue(), Some([9u8; 32]));
    assert_eq!(q2.dequeue(), Some([8u8; 32]));
    assert!(VectorCleanupQueue::from_lines(&vec!["zz".to_string()]).is_none());
}

#[test]
fn requeues_on_delete_fail_then_drains() {
    let mut q = VectorCleanupQueue::new();
    q.enqueue_delete([9u8; 32]);
    let mut inner = InMemoryVectorStore::new();
    inner.upsert([9u8; 32]);
    let mut flaky = FlakyVectorStore::new(inner);
    let mut w = VectorCleanupWorker::new(q);
    flaky.set_fail_delete(true);
    // One attempt per batch: otherwise a failing delete would be retried `max_batch` times in one pump.
    let r1 = w.drain_batch(&mut flaky, 1);
    assert_eq!(r1.requeued, 1);
    assert_eq!(w.queue().depth(), 1);
    flaky.set_fail_delete(false);
    let r2 = w.drain_batch(&mut flaky, 8);
    assert_eq!(r2.deleted_ok, 1);
    assert_eq!(w.queue().depth(), 0);
    assert!(!flaky.inner().has(&[9u8; 32]));
}

#[test]
fn backoff_caps() {
    assert_eq!(VectorCleanupWorker::next_backoff_ms(0, 30_000), 250);
    assert_eq!(VectorCleanupWorker::next_backoff_ms(20, 500), 500);
}

#[test]
fn totals_of_queries_are_kept() {
    let mut q = QuotaTracker::new(1);
    assert_eq!(q.active_count(), 0);
    assert!(q.acquire_query(1).is_ok());
    assert_eq!(q.acquire_query(1), Err(QuotaError::TooManyConcurrentQueries));
    assert_eq!(q.active_count(), 1);
    assert!(q.acquire_query(2).is_ok());
    q.release_query(1);
    assert!(q.acquire_query(1).is_ok());
    assert_eq!(q.active_count(), 2);
    let mut one = QuotaTracker::new(1);
    let g = QuotaGuard::acquire(&mut one, 7).unwrap();
    assert_eq!(one.active_count(), 1);
    g.release(&mut one);
    assert_eq!(one.active_count(), 0);
}

#[test]
fn some_chunks_are_refused_and_wait() {
    let mut q = VectorCleanupQueue::default();
    let mut inner = InMemoryVectorStore::new();
    for n in 1..=4u8 {
        inner.upsert([n; 32]);
        q.enqueue_delete([n; 32]);
    }
    let mut store = FlakyVectorStore::new(inner);
    store.fail_chunk([2u8; 32]);
    let mut w = VectorCleanupWorker::new(q);
    let r = w.drain_batch(&mut store, 3);
    assert_eq!((r.attempted, r.deleted_ok, r.requeued), (3, 2, 1));
    assert_eq!(w.queue().to_lines(), vec!["04".repeat(32), "02".repeat(32)]);
    assert!(!store.inner().has(&[1u8; 32]) && store.inner().has(&[2u8; 32]));
    let r = w.drain_batch(&mut store, 1_000);
    assert_eq!((r.attempted, r.deleted_ok, r.requeued), (1_000, 1, 999));
    assert_eq!(w.queue().depth(), 1);
}

#[test]
fn a_store_that_refuses_turns_the_queue() {
    let mut q = VectorCleanupQueue::new();
    for n in 1..=3u8 {
        q.enqueue_delete([n; 32]);
    }
    let mut store = FlakyVectorStore::new(InMemoryVectorStore::new());
    store.set_fail_delete(true);
    let mut w = VectorCleanupWorker::new(q);
    let r = w.drain_batch(&mut store, 4);
    assert_eq!((r.attempted, r.deleted_ok, r.requeued), (4, 0, 4));
    let turned: Vec<String> = ["02", "03", "01"].iter().map(|h| h.repeat(32)).collect();
    assert_eq!(w.queue().to_lines(), turned);
}

#[test]
fn an_epoch_is_sealed_after_its_time() {
    let mut kv = MemoryKv::new();
    let mut sink = ProductionAuditSink::with_options("cis-time/audit.jsonl", 500, 3);
    sink.record_written();
    assert!(sink.maybe_seal_epoch_after(&mut kv, 499).is_none());
    assert_eq!(sink.record_count_since_epoch(), 1);
    let d = sink.maybe_seal_epoch_after(&mut kv, 500).expect("due by time");
    assert_eq!(sink.record_count_since_epoch(), 0);
    sink.record_written();
    sink.record_written();
    sink.record_written();
    assert_ne!(sink.maybe_seal_epoch_after(&mut kv, 0).expect("due by count"), d);
    assert_eq!(verify_audit_chain(&kv).chain_length, 2);
}
