use cis_core::ids::{BranchId, IdentityId, NodeRevisionId};
use cis_core::kv::MemoryKv;
use cis_core::revision_cow::RevisionIndexCow;
use cis_core::time_travel::{
    overlay_at_wal_log, parse_wal_log_anchor, record_committed_snapshot,
    record_committed_snapshot_legacy, record_git_oid_wal_log, resolve_commit_anchor_to_wal_log,
    resolve_epoch_for_wal_log,
};

#[test]
fn git_oid_maps_to_wal_log() {
    let mut kv = MemoryKv::new();
    record_git_oid_wal_log(&mut kv, "aaaaaaaaaaaaaaaaaaaaaaaaaaaaaaaaaaaaaaaa", 99).unwrap();
    assert_eq!(
        resolve_commit_anchor_to_wal_log(&kv, "aaaaaaaaaaaaaaaaaaaaaaaaaaaaaaaaaaaaaaaa"),
        Ok(99)
    );
    assert_eq!(
        resolve_commit_anchor_to_wal_log(&kv, "0xaaaaaaaaaaaaaaaaaaaaaaaaaaaaaaaaaaaaaaaa"),
        Ok(99)
    );
}

#[test]
fn git_names_are_looked_up_in_small_letters() {
    let mut kv = MemoryKv::new();
    record_git_oid_wal_log(&mut kv, " AAAAAAAAAAAAAAAAAAAAAAAAAAAAAAAAAAAAAAAA ", 7).unwrap();
    assert_eq!(
        resolve_commit_anchor_to_wal_log(&kv, "aaaaaaaaaaaaaaaaaaaaaaaaaaaaaaaaaaaaaaaa"),
        Ok(7)
    );
    assert!(record_git_oid_wal_log(&mut kv, "short", 1).is_err());
}

#[test]
fn anchor_roundtrip_and_parse() {
    let mut kv = MemoryKv::new();
    let b = BranchId([3u8; 16]);
    let mut ri = RevisionIndexCow::root(b);
    let i = IdentityId([9u8; 16]);
    let r = NodeRevisionId([8u8; 16]);
    ri.bind(&mut kv, i, r);
    record_committed_snapshot(&ri, &mut kv, b, 7);
    assert_eq!(resolve_epoch_for_wal_log(&kv, b, 7), Some(1));
    assert_eq!(parse_wal_log_anchor("7"), Ok(7));
    assert_eq!(parse_wal_log_anchor("0xa"), Ok(10));
    let mut loaded = overlay_at_wal_log(&kv, b, 7).unwrap();
    assert_eq!(loaded.lookup(&kv, i), Some(r));
}

#[test]
fn anchors_count_up_and_bad_ones_are_refused() {
    let mut kv = MemoryKv::new();
    let b = BranchId([3u8; 16]);
    let ri = RevisionIndexCow::root(b);
    record_committed_snapshot_legacy(&ri, &mut kv, b, 7);
    record_committed_snapshot_legacy(&ri, &mut kv, b, 8);
    assert_eq!(resolve_epoch_for_wal_log(&kv, b, 8), Some(2));
    assert!(overlay_at_wal_log(&kv, b, 9).is_none());
    assert!(parse_wal_log_anchor("seven").is_err());
}

#[test]
fn spellings_of_a_commit_lead_to_one_entry() {
    let mut kv = MemoryKv::new();
    let small = "0123456789abcdef0123456789abcdef01234567";
    record_git_oid_wal_log(&mut kv, small, 5).unwrap();
    record_git_oid_wal_log(&mut kv, " 0123456789ABCDEF0123456789abcdef01234567\n", 6).unwrap();
    for spelling in [small, "0123456789ABCDEF0123456789ABCDEF01234567", "\t0123456789aBcDeF0123456789abcdef01234567 "] {
        assert_eq!(resolve_commit_anchor_to_wal_log(&kv, spelling), Ok(6));
    }
    assert_eq!(kv.scan_prefix("tt:git:").len(), 1);
}
