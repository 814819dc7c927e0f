//! What has to hold before a merge begins: the branch is locked, and nobody patches its paths.

use crate::bytes;
use crate::clock::now_epoch_ms;
use crate::ids::{BranchId, IdentityId, MergeId, NodeRevisionId};
use crate::kv;
use crate::kv::{CasError, MemoryKv};
use crate::merge_control;
use crate::merge_control::MergeControl;
use crate::merge_lock;
use crate::merge_lock::{acquire_merge_lock_at, merge_lock_holder, release_merge_lock};
use crate::path_lease;
use crate::path_lease::SpeculativePathTracker;
use crate::text;
use crate::text::owned;
use vstd::prelude::*;

verus! {

/// Why a merge may not begin.
#[derive(Debug)]
pub enum MergePreflightError {
    Cas(CasError),
    /// Another merge holds the branch.
    Locked { holder: MergeId },
    /// Some of the merge's paths carry speculative patches.
    SpeculativeConflict { paths: Vec<String> },
}

impl MergePreflightError {
    /// The message for a person.
    pub fn message(&self) -> (r: String)
        ensures
            r@ == (match self {
                MergePreflightError::Cas(e) => kv::cas_message(*e),
                MergePreflightError::Locked { .. } =>
                    "423 Locked \u{2014} merge in progress (blocking merge_id present)"@,
                MergePreflightError::SpeculativeConflict { .. } =>
                    "409 Conflict \u{2014} speculative patches on merge paths (EI-5)"@,
            }),
    {
        match self {
            MergePreflightError::Cas(e) => e.message(),
            MergePreflightError::Locked { .. } => owned(
                "423 Locked \u{2014} merge in progress (blocking merge_id present)",
            ),
            MergePreflightError::SpeculativeConflict { .. } => owned(
                "409 Conflict \u{2014} speculative patches on merge paths (EI-5)",
            ),
        }
    }
}

/// Those of `paths` that carry a speculative patch, in order.
pub open spec fn patched(counts: Map<Seq<char>, u32>, paths: Seq<Seq<char>>) -> Seq<Seq<char>> {
    paths.filter(|p: Seq<char>| counts.contains_key(p))
}

/// The store with a branch locked for a merge.
pub open spec fn lock_taken(
    m: Map<Seq<char>, Seq<u8>>,
    branch: BranchId,
    merge_id: MergeId,
    now_ms: u64,
) -> Map<Seq<char>, Seq<u8>> {
    m.insert(merge_lock::lock_key(branch), merge_id.0@).insert(merge_lock::started_key(merge_id), bytes::le(now_ms as nat, 8))
}

/// What locking a branch and looking for speculative patches comes to.
pub open spec fn preflight(
    m: Map<Seq<char>, Seq<u8>>,
    counts: Map<Seq<char>, u32>,
    branch: BranchId,
    merge_id: MergeId,
    paths: Seq<Seq<char>>,
    now_ms: u64,
    r: Result<(), MergePreflightError>,
    after: Map<Seq<char>, Seq<u8>>,
) -> bool {
    if m.contains_key(merge_lock::lock_key(branch)) {
        after == m && match merge_lock::lock_holder(m, branch) {
            Some(h) => r == Err::<(), MergePreflightError>(
                MergePreflightError::Locked { holder: h },
            ),
            None => r matches Err(MergePreflightError::Cas(CasError::Mismatch(k))) && k@
                == "merge_lock"@,
        }
    } else if patched(counts, paths).len() > 0 {
        after == m.remove(merge_lock::started_key(merge_id)) && (r matches Err(
            MergePreflightError::SpeculativeConflict { paths: p },
        ) && text::texts(p@) == patched(counts, paths))
    } else {
        after == lock_taken(m, branch, merge_id, now_ms) && r is Ok
    }
}

pub struct MergePreflight;

impl MergePreflight {
    /// Locks the branch at a given time, then gives the lock back if a path is patched.
    pub fn acquire_lock_then_quiesce_speculative_at(
        kv: &mut MemoryKv,
        branch_id: BranchId,
        merge_id: MergeId,
        affected_paths: &Vec<String>,
        spec_paths: &SpeculativePathTracker,
        now_ms: u64,
    ) -> (r: Result<(), MergePreflightError>)
        ensures
            preflight(
                old(kv)@,
                spec_paths@,
                branch_id,
                merge_id,
                text::texts(affected_paths@),
                now_ms,
                r,
                final(kv)@,
            ),
    {
        if let Err(_) = acquire_merge_lock_at(kv, branch_id, merge_id, now_ms) {
            return match merge_lock_holder(kv, branch_id) {
                Some(holder) => Err(MergePreflightError::Locked { holder }),
                None => Err(MergePreflightError::Cas(CasError::Mismatch(owned("merge_lock")))),
            };
        }
        let conflicts = spec_paths.conflicting_paths(affected_paths);
        assert(text::texts(conflicts@) == patched(spec_paths@, text::texts(affected_paths@)));
        assert(text::texts(conflicts@).len() == conflicts@.len());
        if conflicts.len() > 0 {
            let ghost taken = kv@;
            proof {
                merge_lock::law_acquire_then_release(old(kv)@, branch_id, merge_id, now_ms);
                merge_lock::lemma_lock_keys_apart(branch_id, merge_id);
            }
            if let Err(e) = release_merge_lock(kv, branch_id, merge_id) {
                return Err(MergePreflightError::Cas(e));
            }
            return Err(MergePreflightError::SpeculativeConflict { paths: conflicts });
        }
        Ok(())
    }

    /// Locks the branch now, then gives the lock back if a path is patched.
    pub fn acquire_lock_then_quiesce_speculative(
        kv: &mut MemoryKv,
        branch_id: BranchId,
        merge_id: MergeId,
        affected_paths: &Vec<String>,
        spec_paths: &SpeculativePathTracker,
    ) -> (r: Result<(), MergePreflightError>)
        ensures
            exists|now_ms: u64| #[trigger]
                preflight(
                    old(kv)@,
                    spec_paths@,
                    branch_id,
                    merge_id,
                    text::texts(affected_paths@),
                    now_ms,
                    r,
                    final(kv)@,
                ),
    {
        let now_ms = now_epoch_ms();
        Self::acquire_lock_then_quiesce_speculative_at(
            kv,
            branch_id,
            merge_id,
            affected_paths,
            spec_paths,
            now_ms,
        )
    }

    /// Locks the branch at a given time, unless a path is patched, and keeps the bindings from
    /// before the merge.
    pub fn begin_with_snapshot_at(
        kv: &mut MemoryKv,
        branch_id: BranchId,
        merge_id: MergeId,
        affected_paths: &Vec<String>,
        spec_paths: &SpeculativePathTracker,
        pre_bindings: &Vec<(IdentityId, NodeRevisionId)>,
        now_ms: u64,
    ) -> (r: Result<(), MergePreflightError>)
        ensures
            exists|locked: Map<Seq<char>, Seq<u8>>| #[trigger]
                preflight(
                    old(kv)@,
                    spec_paths@,
                    branch_id,
                    merge_id,
                    text::texts(affected_paths@),
                    now_ms,
                    r,
                    locked,
                ) && final(kv)@ == (if r is Ok {
                    merge_control::premerge_recorded(locked, merge_id, branch_id, pre_bindings@)
                } else {
                    locked
                }),
    {
        let r = Self::acquire_lock_then_quiesce_speculative_at(
            kv,
            branch_id,
            merge_id,
            affected_paths,
            spec_paths,
            now_ms,
        );
        if r.is_ok() {
            MergeControl::new().record_premerge_bindings(kv, merge_id, branch_id, pre_bindings);
        }
        r
    }

    /// Locks the branch now, unless a path is patched, and keeps the bindings from before the
    /// merge.
    pub fn begin_with_snapshot(
        kv: &mut MemoryKv,
        branch_id: BranchId,
        merge_id: MergeId,
        affected_paths: &Vec<String>,
        spec_paths: &SpeculativePathTracker,
        pre_bindings: &Vec<(IdentityId, NodeRevisionId)>,
    ) -> (r: Result<(), MergePreflightError>)
        ensures
            exists|locked: Map<Seq<char>, Seq<u8>>, now_ms: u64| #[trigger]
                preflight(
                    old(kv)@,
                    spec_paths@,
                    branch_id,
                    merge_id,
                    text::texts(affected_paths@),
                    now_ms,
                    r,
                    locked,
                ) && final(kv)@ == (if r is Ok {
                    merge_control::premerge_recorded(locked, merge_id, branch_id, pre_bindings@)
                } else {
                    locked
                }),
    {
        let now_ms = now_epoch_ms();
        Self::begin_with_snapshot_at(
            kv,
            branch_id,
            merge_id,
            affected_paths,
            spec_paths,
            pre_bindings,
            now_ms,
        )
    }
}

/// A refused merge leaves no lock of its own behind, and changes no lock.
pub proof fn law_refused_merge_leaves_locks(
    m: Map<Seq<char>, Seq<u8>>,
    counts: Map<Seq<char>, u32>,
    branch: BranchId,
    merge_id: MergeId,
    paths: Seq<Seq<char>>,
    now_ms: u64,
    r: Result<(), MergePreflightError>,
    after: Map<Seq<char>, Seq<u8>>,
    other: BranchId,
)
    requires
        preflight(m, counts, branch, merge_id, paths, now_ms, r, after),
        r is Err,
    ensures
        kv::value_at(after, merge_lock::lock_key(other)) == kv::value_at(m, merge_lock::lock_key(other)),
{
    merge_lock::lemma_lock_keys_apart(other, merge_id);
}

/// Of a merge and a speculative patch on one of its paths only one goes ahead: a merge that does has
/// no patched path, and holds its branch, so that no patch is let in on it; one whose path is patched
/// does not.
pub proof fn law_merge_or_patch(
    m: Map<Seq<char>, Seq<u8>>,
    counts: Map<Seq<char>, u32>,
    branch: BranchId,
    merge_id: MergeId,
    paths: Seq<Seq<char>>,
    now_ms: u64,
    r: Result<(), MergePreflightError>,
    after: Map<Seq<char>, Seq<u8>>,
)
    requires
        preflight(m, counts, branch, merge_id, paths, now_ms, r, after),
    ensures
        r is Ok ==> merge_lock::lock_holder(after, branch) == Some(merge_id),
        r is Ok ==> forall|p: Seq<char>| #[trigger]
            paths.contains(p) ==> path_lease::count_of(counts, p) == 0,
        (exists|p: Seq<char>| #[trigger] paths.contains(p) && path_lease::count_of(counts, p) > 0)
            ==> r is Err,
{
    if r is Ok {
        merge_lock::law_acquired_lock_is_held(m, branch, merge_id, now_ms, branch);
        let q = |p: Seq<char>| counts.contains_key(p);
        assert forall|p: Seq<char>| #[trigger] paths.contains(p) implies path_lease::count_of(
            counts,
            p,
        ) == 0 by {
            if counts.contains_key(p) {
                let i = choose|i: int| 0 <= i < paths.len() && paths[i] == p;
                paths.lemma_filter_contains(q, i);
                assert(patched(counts, paths).contains(p));
            }
        }
    }
}

} // verus!
