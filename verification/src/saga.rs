//! The saga of a merge: how far it has come, kept under `saga_state:{merge}`.

use crate::bytes;
use crate::bytes::{le_u32_at, u32_le};
use crate::hex;
use crate::hex::{array16, decimal_text, parse_hex16};
use crate::ids;
use crate::ids::{BranchId, MergeId};
use crate::keys;
use crate::keys::{strip_prefix, tagged_key, tagged_rest_key};
use crate::kv;
use crate::kv::MemoryKv;
use crate::merge_lock;
use crate::merge_lock::{merge_started_key, release_merge_lock, scan_merge_lock_holders};
use crate::text;
use vstd::prelude::*;

verus! {

/// How far a merge has come.
#[derive(Debug, Clone, Copy, PartialEq, Eq, Structural)]
pub enum SagaPhase {
    Intent,
    Classifying,
    Promoting,
    EdgeBatch { seq: u32 },
    PointerSwap,
    Committed,
}

/// Keeps sagas on record. One built to lose its writes records nothing.
#[derive(Debug, Clone, Copy)]
pub struct MergeSagaOrchestrator {
    loses_writes: bool,
}

/// `saga_state:{merge}`.
pub open spec fn state_key(merge_id: MergeId) -> Seq<char> {
    keys::tagged("saga_state:"@, merge_id.0@)
}

/// `saga_batch:{merge}:{seq}`.
pub open spec fn marker_key(merge_id: MergeId, seq: u32) -> Seq<char> {
    keys::tagged_rest("saga_batch:"@, merge_id.0@, hex::decimal(seq as nat))
}

/// `saga_batch:{merge}:`.
pub open spec fn marker_prefix(merge_id: MergeId) -> Seq<char> {
    keys::tagged_rest("saga_batch:"@, merge_id.0@, Seq::<char>::empty())
}

/// `saga_payload:{merge}:{seq}`.
pub open spec fn payload_key(merge_id: MergeId, seq: u32) -> Seq<char> {
    keys::tagged_rest("saga_payload:"@, merge_id.0@, hex::decimal(seq as nat))
}

/// `saga_payload:{merge}:`.
pub open spec fn payload_prefix(merge_id: MergeId) -> Seq<char> {
    keys::tagged_rest("saga_payload:"@, merge_id.0@, Seq::<char>::empty())
}

/// The number that stands for a phase.
pub open spec fn phase_tag(phase: SagaPhase) -> u8 {
    match phase {
        SagaPhase::Intent => 1,
        SagaPhase::Classifying => 2,
        SagaPhase::Promoting => 3,
        SagaPhase::EdgeBatch { seq } => 4,
        SagaPhase::PointerSwap => 5,
        SagaPhase::Committed => 6,
    }
}

/// The batch that a phase has come to.
pub open spec fn phase_seq(phase: SagaPhase) -> u32 {
    match phase {
        SagaPhase::EdgeBatch { seq } => seq,
        _ => 0,
    }
}

/// A phase as it is recorded: its tag and, in four bytes, its batch.
pub open spec fn phase_record(phase: SagaPhase) -> Seq<u8> {
    seq![phase_tag(phase)] + bytes::le(phase_seq(phase) as nat, 4)
}

/// The phase that a record stands for.
pub open spec fn phase_of(v: Seq<u8>) -> Option<SagaPhase> {
    if v.len() == 0 {
        None
    } else if v[0] == 1 {
        Some(SagaPhase::Intent)
    } else if v[0] == 2 {
        Some(SagaPhase::Classifying)
    } else if v[0] == 3 {
        Some(SagaPhase::Promoting)
    } else if v[0] == 4 {
        Some(
            SagaPhase::EdgeBatch {
                seq: if v.len() >= 5 {
                    bytes::le_value(v.subrange(1, 5)) as u32
                } else {
                    0
                },
            },
        )
    } else if v[0] == 5 {
        Some(SagaPhase::PointerSwap)
    } else if v[0] == 6 {
        Some(SagaPhase::Committed)
    } else {
        None
    }
}

/// The phase on record for a merge.
pub open spec fn saga_at(m: Map<Seq<char>, Seq<u8>>, merge_id: MergeId) -> Option<SagaPhase> {
    match kv::value_at(m, state_key(merge_id)) {
        Some(v) => phase_of(v),
        None => None,
    }
}

/// The store without anything that the saga of a merge left in it.
pub open spec fn saga_purged(m: Map<Seq<char>, Seq<u8>>, merge_id: MergeId) -> Map<
    Seq<char>,
    Seq<u8>,
> {
    kv::without_prefix(kv::without_prefix(m, marker_prefix(merge_id)), payload_prefix(merge_id)).remove(
        state_key(merge_id),
    )
}

/// The merge whose saga a key records.
pub open spec fn saga_merge(key: Seq<char>) -> Option<Seq<u8>> {
    if text::begins_with(key, "saga_state:"@) {
        hex::bytes_of_hex(keys::rest_of(key, "saga_state:"@), 16)
    } else {
        None
    }
}

/// Reads the merge whose saga a key records.
pub fn merge_id_from_saga_key(k: &str) -> (r: Option<MergeId>)
    ensures
        match r {
            Some(id) => saga_merge(k@) == Some(id.0@),
            None => saga_merge(k@) is None,
        },
{
    match strip_prefix(k, "saga_state:") {
        Some(hex) => match parse_hex16(hex.as_str()) {
            Some(b) => Some(MergeId(b)),
            None => None,
        },
        None => None,
    }
}

/// Builds `saga_payload:{merge}:`.
pub fn payload_prefix_text(merge_id: MergeId) -> (r: String)
    ensures
        r@ == payload_prefix(merge_id),
{
    proof {
        reveal_strlit("");
        assert(""@ =~= Seq::<char>::empty());
    }
    tagged_rest_key("saga_payload:", &merge_id.0, "")
}

/// Builds `saga_payload:{merge}:{seq}`.
pub fn payload_key_text(merge_id: MergeId, seq: u32) -> (r: String)
    ensures
        r@ == payload_key(merge_id, seq),
{
    tagged_rest_key("saga_payload:", &merge_id.0, decimal_text(seq as u64).as_str())
}

/// Forgets the edge batches of a merge.
pub fn purge_saga_edge_payloads(kv: &mut MemoryKv, merge_id: MergeId)
    ensures
        final(kv)@ == kv::without_prefix(old(kv)@, payload_prefix(merge_id)),
{
    kv.delete_prefix(payload_prefix_text(merge_id).as_str());
}

/// A key that goes when the locks of a merge are given back: one of its locks, or its start.
pub open spec fn unlock_takes(
    m: Map<Seq<char>, Seq<u8>>,
    merge_id: MergeId,
    k: Seq<char>,
) -> bool {
    ||| k == merge_lock::started_key(merge_id)
    ||| exists|b: BranchId|
        k == #[trigger] merge_lock::lock_key(b) && kv::value_at(m, k) == Some(merge_id.0@)
}

/// The store once the locks of a merge are given back.
pub open spec fn merge_unlocked(m: Map<Seq<char>, Seq<u8>>, merge_id: MergeId) -> Map<
    Seq<char>,
    Seq<u8>,
> {
    m.remove_keys(Set::new(|k: Seq<char>| unlock_takes(m, merge_id, k)))
}

/// A key that goes when the saga of a merge is dropped.
pub open spec fn drop_takes(
    m: Map<Seq<char>, Seq<u8>>,
    merge_id: MergeId,
    k: Seq<char>,
) -> bool {
    ||| unlock_takes(m, merge_id, k)
    ||| text::begins_with(k, marker_prefix(merge_id))
    ||| text::begins_with(k, payload_prefix(merge_id))
    ||| k == state_key(merge_id)
}

/// `q` records a saga that did not come to its end.
pub open spec fn orphan_row(m: Map<Seq<char>, Seq<u8>>, q: Seq<char>) -> bool {
    &&& m.contains_key(q)
    &&& text::begins_with(q, "saga_state:"@)
    &&& !(m[q].len() > 0 && m[q][0] == 6)
}

/// A key that goes on account of the saga that `q` records.
pub open spec fn orphan_takes(m: Map<Seq<char>, Seq<u8>>, q: Seq<char>, k: Seq<char>) -> bool {
    orphan_row(m, q) && match saga_merge(q) {
        Some(b) => drop_takes(m, MergeId(ids::array_of(b)), k),
        None => k == q,
    }
}

/// The store once every saga that did not come to its end is dropped.
pub open spec fn orphans_dropped(m: Map<Seq<char>, Seq<u8>>) -> Map<Seq<char>, Seq<u8>> {
    m.remove_keys(
        Set::new(|k: Seq<char>| exists|q: Seq<char>| #[trigger] orphan_takes(m, q, k)),
    )
}

/// `q` records a lock whose merge has no saga.
pub open spec fn stray_row(m: Map<Seq<char>, Seq<u8>>, q: Seq<char>) -> bool {
    exists|lock: (BranchId, MergeId)| #[trigger]
        merge_lock::records_lock(m, q, lock) && saga_at(m, lock.1) is None
}

/// A key that goes with a lock whose merge has no saga: the lock itself, or the merge's start.
pub open spec fn stray_takes(m: Map<Seq<char>, Seq<u8>>, b: BranchId, k: Seq<char>) -> bool {
    match merge_lock::lock_holder(m, b) {
        Some(id) => saga_at(m, id) is None && (k == merge_lock::lock_key(b) || k == merge_lock::started_key(id)),
        None => false,
    }
}

/// The store once every lock whose merge has no saga is given back.
pub open spec fn strays_unlocked(m: Map<Seq<char>, Seq<u8>>) -> Map<Seq<char>, Seq<u8>> {
    m.remove_keys(Set::new(|k: Seq<char>| exists|b: BranchId| #[trigger] stray_takes(m, b, k)))
}

impl MergeSagaOrchestrator {
    /// An orchestrator that keeps its records.
    pub fn new() -> (r: Self)
        ensures
            !r.loses(),
    {
        MergeSagaOrchestrator { loses_writes: false }
    }

    /// An orchestrator whose writes are all lost.
    pub fn losing_writes() -> (r: Self)
        ensures
            r.loses(),
    {
        MergeSagaOrchestrator { loses_writes: true }
    }

    /// Its writes are lost.
    pub closed spec fn loses(&self) -> bool {
        self.loses_writes
    }

    /// Builds `saga_batch:{merge}:{seq}`.
    pub fn batch_key(merge_id: MergeId, batch_seq: u32) -> (r: String)
        ensures
            r@ == marker_key(merge_id, batch_seq),
    {
        tagged_rest_key("saga_batch:", &merge_id.0, decimal_text(batch_seq as u64).as_str())
    }

    /// Builds `saga_state:{merge}`.
    fn key(merge_id: MergeId) -> (r: String)
        ensures
            r@ == state_key(merge_id),
    {
        tagged_key("saga_state:", &merge_id.0)
    }

    /// Records that a batch was applied.
    pub fn persist_batch_marker(&self, kv: &mut MemoryKv, merge_id: MergeId, batch_seq: u32)
        ensures
            final(kv)@ == (if self.loses() {
                old(kv)@
            } else {
                old(kv)@.insert(marker_key(merge_id, batch_seq), seq![1u8])
            }),
    {
        if self.loses_writes {
            return;
        }
        let mut v: Vec<u8> = Vec::new();
        v.push(1u8);
        assert(v@ =~= seq![1u8]);
        kv.set(Self::batch_key(merge_id, batch_seq).as_str(), v);
    }

    /// Records how far a merge has come.
    pub fn persist(&self, kv: &mut MemoryKv, merge_id: MergeId, phase: SagaPhase)
        ensures
            final(kv)@ == (if self.loses() {
                old(kv)@
            } else {
                old(kv)@.insert(state_key(merge_id), phase_record(phase))
            }),
    {
        if self.loses_writes {
            return;
        }
        let (tag, seq): (u8, u32) = match phase {
            SagaPhase::Intent => (1, 0),
            SagaPhase::Classifying => (2, 0),
            SagaPhase::Promoting => (3, 0),
            SagaPhase::EdgeBatch { seq } => (4, seq),
            SagaPhase::PointerSwap => (5, 0),
            SagaPhase::Committed => (6, 0),
        };
        let mut v: Vec<u8> = Vec::new();
        v.push(tag);
        let mut tail = u32_le(seq);
        v.append(&mut tail);
        assert(v@ =~= phase_record(phase));
        kv.set(Self::key(merge_id).as_str(), v);
    }

    /// Reads how far a merge has come.
    pub fn load(&self, kv: &MemoryKv, merge_id: MergeId) -> (r: Option<SagaPhase>)
        ensures
            r == saga_at(kv@, merge_id),
    {
        let v = match kv.get(Self::key(merge_id).as_str()) {
            Some(v) => v,
            None => {
                return None;
            },
        };
        if v.len() == 0 {
            return None;
        }
        let seq: u32 = if v.len() >= 5 {
            le_u32_at(&v, 1)
        } else {
            0
        };
        let tag: u8 = v[0];
        if tag == 1 {
            Some(SagaPhase::Intent)
        } else if tag == 2 {
            Some(SagaPhase::Classifying)
        } else if tag == 3 {
            Some(SagaPhase::Promoting)
        } else if tag == 4 {
            Some(SagaPhase::EdgeBatch { seq })
        } else if tag == 5 {
            Some(SagaPhase::PointerSwap)
        } else if tag == 6 {
            Some(SagaPhase::Committed)
        } else {
            None
        }
    }

    /// Forgets the phase, the markers and the edge batches of a merge.
    pub fn purge_merge_saga_state(&self, kv: &mut MemoryKv, merge_id: MergeId)
        ensures
            final(kv)@ == saga_purged(old(kv)@, merge_id),
    {
        proof {
            reveal_strlit("");
            assert(""@ =~= Seq::<char>::empty());
        }
        let prefix = tagged_rest_key("saga_batch:", &merge_id.0, "");
        kv.delete_prefix(prefix.as_str());
        purge_saga_edge_payloads(kv, merge_id);
        kv.delete(Self::key(merge_id).as_str());
    }

    /// Gives back every lock that a merge holds, and forgets when it began.
    pub fn release_locks_for_merge(&self, kv: &mut MemoryKv, merge_id: MergeId)
        ensures
            final(kv)@ == merge_unlocked(old(kv)@, merge_id),
    {
        let ghost m0 = kv@;
        let locks = scan_merge_lock_holders(kv);
        let mut i: usize = 0;
        while i < locks.len()
            invariant
                i <= locks.len(),
                forall|k: Seq<char>| #[trigger]
                    kv@.contains_key(k) ==> m0.contains_pair(k, kv@[k]),
                forall|k: Seq<char>| #[trigger]
                    m0.contains_key(k) && !kv@.contains_key(k) ==> unlock_takes(m0, merge_id, k),
                forall|j: int|
                    0 <= j < i && (#[trigger] locks@[j]).1 == merge_id ==> kv::value_at(
                        kv@,
                        merge_lock::lock_key(locks@[j].0),
                    ) != Some(merge_id.0@),
            decreases locks.len() - i,
        {
            let (branch, holder) = locks[i];
            if holder == merge_id {
                let ghost before = kv@;
                let _ = release_merge_lock(kv, branch, merge_id);
                proof {
                    assert forall|k: Seq<char>| #[trigger]
                        kv@.contains_key(k) implies m0.contains_pair(k, kv@[k]) by {
                        assert(before.contains_key(k));
                    }
                    assert forall|k: Seq<char>| #[trigger]
                        m0.contains_key(k) && !kv@.contains_key(k) implies unlock_takes(
                        m0,
                        merge_id,
                        k,
                    ) by {
                        if before.contains_key(k) && k == merge_lock::lock_key(branch) {
                            assert(k == merge_lock::lock_key(branch) && kv::value_at(m0, k) == Some(merge_id.0@));
                        }
                    }
                }
            }
            i = i + 1;
        }
        let ghost m1 = kv@;
        kv.delete(merge_started_key(merge_id).as_str());
        proof {
            assert forall|k: Seq<char>| kv@.contains_key(k) implies !unlock_takes(
                m0,
                merge_id,
                k,
            ) by {
                assert(m1.contains_key(k));
                if unlock_takes(m0, merge_id, k) {
                    let b = choose|b: BranchId|
                        k == #[trigger] merge_lock::lock_key(b) && kv::value_at(m0, k) == Some(merge_id.0@);
                    keys::lemma_tagged_injective("merge_lock:"@, b.0, b.0);
                    hex::lemma_hex_reads_back(b.0@);
                    merge_lock::lemma_locks_complete(m0, locks@, merge_lock::lock_key(b), (b, merge_id));
                    let j = choose|j: int| 0 <= j < locks.len() && locks@[j] == (b, merge_id);
                    assert(locks@[j].1 == merge_id);
                }
            }
            assert(kv@ =~= merge_unlocked(m0, merge_id));
        }
    }

    /// Gives back the locks of a merge and purges its saga.
    fn drop_saga(&self, kv: &mut MemoryKv, merge_id: MergeId)
        ensures
            final(kv)@ == old(kv)@.remove_keys(
                Set::new(|k: Seq<char>| drop_takes(old(kv)@, merge_id, k)),
            ),
    {
        let ghost m0 = kv@;
        self.release_locks_for_merge(kv, merge_id);
        self.purge_merge_saga_state(kv, merge_id);
        assert(kv@ =~= m0.remove_keys(Set::new(|k: Seq<char>| drop_takes(m0, merge_id, k))));
    }

    /// Drops every saga that did not come to its end.
    fn drop_orphans(&self, kv: &mut MemoryKv) -> (n: usize)
        ensures
            final(kv)@ == orphans_dropped(old(kv)@),
            n == old(kv)@.dom().filter(|q: Seq<char>| orphan_row(old(kv)@, q)).len(),
    {
        let ghost m0 = kv@;
        let rows = kv.scan_prefix("saga_state:");
        let ghost mut hits: Seq<Seq<char>> = Seq::empty();
        let mut n: usize = 0;
        let mut i: usize = 0;
        while i < rows.len()
            invariant
                i <= rows.len(),
                n <= i,
                n == hits.len(),
                kv::scanned(m0, "saga_state:"@, rows@),
                hits.no_duplicates(),
                forall|h: int|
                    0 <= h < hits.len() ==> orphan_row(m0, #[trigger] hits[h]) && exists|j: int|
                        0 <= j < i && (#[trigger] rows@[j]).0@ == hits[h],
                forall|j: int|
                    0 <= j < i && orphan_row(m0, (#[trigger] rows@[j]).0@) ==> hits.contains(
                        rows@[j].0@,
                    ),
                forall|k: Seq<char>| #[trigger]
                    kv@.contains_key(k) ==> m0.contains_pair(k, kv@[k]),
                forall|k: Seq<char>| #[trigger]
                    m0.contains_key(k) && !kv@.contains_key(k) ==> exists|q: Seq<char>| #[trigger]
                        orphan_takes(m0, q, k),
                forall|j: int, k: Seq<char>|
                    #![trigger orphan_takes(m0, rows@[j].0@, k)]
                    0 <= j < i && orphan_takes(m0, rows@[j].0@, k) ==> !kv@.contains_key(k),
            decreases rows.len() - i,
        {
            let ghost key = rows@[i as int].0@;
            assert(text::begins_with(key, "saga_state:"@) && m0.contains_pair(key, rows@[i as int].1@));
            let done = rows[i].1.len() > 0 && rows[i].1[0] == 6;
            if !done {
                let ghost cur = kv@;
                match merge_id_from_saga_key(rows[i].0.as_str()) {
                    Some(mid) => {
                        self.drop_saga(kv, mid);
                        proof {
                            ids::lemma_array_of(mid.0);
                            assert forall|k: Seq<char>| #[trigger]
                                cur.contains_key(k) implies drop_takes(cur, mid, k)
                                == orphan_takes(m0, key, k) by {
                                assert(m0.contains_pair(k, cur[k]));
                                lemma_drop_takes_same(m0, cur, mid, k);
                            }
                        }
                    },
                    None => {
                        kv.delete(rows[i].0.as_str());
                    },
                }
                proof {
                    assert(orphan_row(m0, key));
                    assert forall|k: Seq<char>| #[trigger]
                        kv@.contains_key(k) implies m0.contains_pair(k, kv@[k]) by {
                        assert(cur.contains_key(k));
                    }
                    assert forall|k: Seq<char>| #[trigger]
                        m0.contains_key(k) && !kv@.contains_key(k) implies exists|q: Seq<char>|
                        #[trigger] orphan_takes(m0, q, k) by {
                        if cur.contains_key(k) {
                            assert(orphan_takes(m0, key, k));
                        }
                    }
                    assert forall|k: Seq<char>| orphan_takes(m0, key, k) implies !kv@.contains_key(
                        k,
                    ) by {
                        if kv@.contains_key(k) {
                            assert(cur.contains_key(k));
                        }
                    }
                    let before = hits;
                    hits = hits.push(key);
                    assert(!before.contains(key)) by {
                        if before.contains(key) {
                            let h = choose|h: int| 0 <= h < before.len() && before[h] == key;
                            assert(orphan_row(m0, before[h]));
                            let j = choose|j: int|
                                0 <= j < i && (#[trigger] rows@[j]).0@ == before[h];
                            assert(rows@[j].0@ != rows@[i as int].0@);
                        }
                    }
                    assert(hits.no_duplicates());
                    assert(hits[before.len() as int] == key);
                    assert forall|j: int|
                        0 <= j < i + 1 && orphan_row(
                            m0,
                            (#[trigger] rows@[j]).0@,
                        ) implies hits.contains(rows@[j].0@) by {
                        if j < i {
                            let h = choose|h: int|
                                0 <= h < before.len() && before[h] == rows@[j].0@;
                            assert(hits[h] == rows@[j].0@);
                        }
                    }
                    assert forall|h: int| 0 <= h < hits.len() implies orphan_row(
                        m0,
                        #[trigger] hits[h],
                    ) && exists|j: int| 0 <= j < i + 1 && (#[trigger] rows@[j]).0@ == hits[h] by {
                        if h < before.len() {
                            assert(hits[h] == before[h]);
                            let j = choose|j: int|
                                0 <= j < i && (#[trigger] rows@[j]).0@ == before[h];
                            assert(rows@[j].0@ == hits[h]);
                        } else {
                            assert(rows@[i as int].0@ == hits[h]);
                        }
                    }
                }
                n = n + 1;
            } else {
                assert(!orphan_row(m0, key));
            }
            i = i + 1;
        }
        proof {
            assert forall|k: Seq<char>| kv@.contains_key(k) implies !(exists|q: Seq<char>|
                #[trigger] orphan_takes(m0, q, k)) by {
                if exists|q: Seq<char>| #[trigger] orphan_takes(m0, q, k) {
                    let q = choose|q: Seq<char>| #[trigger] orphan_takes(m0, q, k);
                    assert(m0.contains_key(q) && text::begins_with(q, "saga_state:"@));
                    let j = choose|j: int| 0 <= j < rows.len() && (#[trigger] rows@[j]).0@ == q;
                    assert(orphan_takes(m0, rows@[j].0@, k));
                }
            }
            assert(kv@ =~= orphans_dropped(m0));
            let want = m0.dom().filter(|q: Seq<char>| orphan_row(m0, q));
            assert(hits.to_set() =~= want) by {
                assert forall|q: Seq<char>| want.contains(q) implies hits.to_set().contains(q) by {
                    assert(m0.contains_key(q) && text::begins_with(q, "saga_state:"@));
                    let j = choose|j: int| 0 <= j < rows.len() && (#[trigger] rows@[j]).0@ == q;
                    assert(orphan_row(m0, rows@[j].0@));
                }
                assert forall|q: Seq<char>| hits.to_set().contains(q) implies want.contains(q) by {
                    let h = choose|h: int| 0 <= h < hits.len() && hits[h] == q;
                    assert(orphan_row(m0, hits[h]));
                }
            }
            hits.unique_seq_to_set();
        }
        n
    }
}

/// Reads the lock that a row records.
fn lock_of_row(kv: &MemoryKv, key: &String, value: &Vec<u8>) -> (r: Option<(BranchId, MergeId)>)
    requires
        text::begins_with(key@, "merge_lock:"@),
    ensures
        match r {
            Some(lock) => forall|m: Map<Seq<char>, Seq<u8>>|
                m.contains_pair(key@, value@) ==> #[trigger] merge_lock::records_lock(m, key@, lock),
            None => forall|m: Map<Seq<char>, Seq<u8>>, lock: (BranchId, MergeId)|
                m.contains_pair(key@, value@) ==> !#[trigger] merge_lock::records_lock(m, key@, lock),
        },
{
    if value.len() != 16 {
        return None;
    }
    match strip_prefix(key.as_str(), "merge_lock:") {
        Some(hex) => match parse_hex16(hex.as_str()) {
            Some(b) => Some((BranchId(b), MergeId(array16(value)))),
            None => None,
        },
        None => None,
    }
}

/// The lock that a row records is settled by the row.
proof fn lemma_one_lock_a_row(
    m: Map<Seq<char>, Seq<u8>>,
    q: Seq<char>,
    a: (BranchId, MergeId),
    b: (BranchId, MergeId),
)
    requires
        merge_lock::records_lock(m, q, a),
        merge_lock::records_lock(m, q, b),
    ensures
        a == b,
{
    assert(a.0.0 =~= b.0.0);
    assert(a.1.0 =~= b.1.0);
}

/// A saga's own key is neither a lock nor a start.
pub proof fn lemma_state_key_apart(id: MergeId, b: BranchId, other: MergeId)
    ensures
        state_key(id) != merge_lock::lock_key(b),
        state_key(id) != merge_lock::started_key(other),
{
    reveal_strlit("saga_state:");
    reveal_strlit("merge_lock:");
    reveal_strlit("merge_started:");
    keys::lemma_tagged_injective("saga_state:"@, id.0, id.0);
    keys::lemma_tagged_injective("merge_lock:"@, b.0, b.0);
    keys::lemma_tagged_injective("merge_started:"@, other.0, other.0);
    keys::lemma_prefixes_differ(state_key(id), "saga_state:"@, merge_lock::lock_key(b), "merge_lock:"@, 0);
    keys::lemma_prefixes_differ(state_key(id), "saga_state:"@, merge_lock::started_key(other), "merge_started:"@, 0);
}

impl MergeSagaOrchestrator {
    /// Gives back every lock whose merge has no saga.
    fn unlock_strays(&self, kv: &mut MemoryKv) -> (n: usize)
        ensures
            final(kv)@ == strays_unlocked(old(kv)@),
            n == old(kv)@.dom().filter(|q: Seq<char>| stray_row(old(kv)@, q)).len(),
    {
        let ghost m0 = kv@;
        let rows = kv.scan_prefix("merge_lock:");
        let ghost mut hits: Seq<Seq<char>> = Seq::empty();
        let mut n: usize = 0;
        let mut i: usize = 0;
        while i < rows.len()
            invariant
                i <= rows.len(),
                n <= i,
                n == hits.len(),
                kv::scanned(m0, "merge_lock:"@, rows@),
                hits.no_duplicates(),
                forall|h: int|
                    0 <= h < hits.len() ==> stray_row(m0, #[trigger] hits[h]) && exists|j: int|
                        0 <= j < i && (#[trigger] rows@[j]).0@ == hits[h],
                forall|j: int|
                    0 <= j < i && stray_row(m0, (#[trigger] rows@[j]).0@) ==> hits.contains(
                        rows@[j].0@,
                    ),
                forall|k: Seq<char>| #[trigger]
                    kv@.contains_key(k) ==> m0.contains_pair(k, kv@[k]),
                forall|k: Seq<char>| #[trigger]
                    m0.contains_key(k) && !kv@.contains_key(k) ==> exists|b: BranchId| #[trigger]
                        stray_takes(m0, b, k),
                forall|j: int, lock: (BranchId, MergeId)|
                    #![trigger merge_lock::records_lock(m0, rows@[j].0@, lock)]
                    0 <= j < i && merge_lock::records_lock(m0, rows@[j].0@, lock) && saga_at(m0, lock.1) is None
                        && merge_lock::lock_holder(m0, lock.0) == Some(lock.1) ==> !kv@.contains_key(
                        merge_lock::lock_key(lock.0),
                    ) && !kv@.contains_key(merge_lock::started_key(lock.1)),
                forall|b: BranchId, id: MergeId|
                    #![trigger merge_lock::lock_holder(m0, b), merge_lock::started_key(id)]
                    merge_lock::lock_holder(m0, b) == Some(id) && !kv@.contains_key(
                        merge_lock::lock_key(b),
                    ) ==> !kv@.contains_key(merge_lock::started_key(id)),
                forall|id: MergeId| #[trigger] saga_at(kv@, id) == saga_at(m0, id),
            decreases rows.len() - i,
        {
            let ghost key = rows@[i as int].0@;
            let ghost cur = kv@;
            assert(text::begins_with(key, "merge_lock:"@) && m0.contains_pair(key, rows@[i as int].1@));
            let found = lock_of_row(kv, &rows[i].0, &rows[i].1);
            let mut stray = false;
            if let Some((branch, mid)) = found {
                proof {
                    assert(merge_lock::records_lock(m0, key, (branch, mid)));
                    assert forall|lock: (BranchId, MergeId)| merge_lock::records_lock(
                        m0,
                        key,
                        lock,
                    ) implies lock == (branch, mid) by {
                        lemma_one_lock_a_row(m0, key, lock, (branch, mid));
                    }
                }
                if self.load(kv, mid).is_none() {
                    stray = true;
                    let _ = release_merge_lock(kv, branch, mid);
                    proof {
                        ids::lemma_array_of(mid.0);
                        merge_lock::lemma_lock_keys_apart(branch, mid);
                        assert(saga_at(cur, mid) == saga_at(m0, mid));
                        assert(stray_row(m0, key));
                        assert forall|k: Seq<char>| #[trigger]
                            kv@.contains_key(k) implies m0.contains_pair(k, kv@[k]) by {
                            assert(cur.contains_key(k));
                        }
                        assert forall|k: Seq<char>| #[trigger]
                            m0.contains_key(k) && !kv@.contains_key(k) implies exists|b: BranchId|
                            #[trigger] stray_takes(m0, b, k) by {
                            if cur.contains_key(k) {
                                assert(kv::value_at(cur, merge_lock::lock_key(branch)) == Some(mid.0@));
                                assert(cur.contains_key(merge_lock::lock_key(branch)));
                                assert(merge_lock::lock_holder(m0, branch) == Some(mid));
                                assert(stray_takes(m0, branch, k));
                            }
                        }
                        assert(merge_lock::lock_holder(m0, branch) == Some(mid) ==> !kv@.contains_key(
                            merge_lock::lock_key(branch),
                        ) && !kv@.contains_key(merge_lock::started_key(mid))) by {
                            if merge_lock::lock_holder(m0, branch) == Some(mid) {
                                lemma_holder_bytes(m0, branch, mid);
                            }
                        }
                        assert forall|b: BranchId, id: MergeId|
                            #![trigger merge_lock::lock_holder(m0, b), merge_lock::started_key(id)]
                            merge_lock::lock_holder(m0, b) == Some(id) && !kv@.contains_key(
                                merge_lock::lock_key(b),
                            ) implies !kv@.contains_key(merge_lock::started_key(id)) by {
                            merge_lock::lemma_lock_keys_apart(b, mid);
                            keys::lemma_tagged_injective("merge_lock:"@, b.0, branch.0);
                            lemma_holder_bytes(m0, b, id);
                            if cur.contains_key(merge_lock::lock_key(b)) {
                                assert(b.0 == branch.0);
                                assert(id.0 =~= mid.0);
                            }
                        }
                        assert forall|id: MergeId| #[trigger] saga_at(kv@, id) == saga_at(
                            m0,
                            id,
                        ) by {
                            lemma_state_key_apart(id, branch, mid);
                            assert(saga_at(cur, id) == saga_at(m0, id));
                        }
                    }
                }
            }
            proof {
                if stray {
                    let before = hits;
                    hits = hits.push(key);
                    assert(!before.contains(key)) by {
                        if before.contains(key) {
                            let h = choose|h: int| 0 <= h < before.len() && before[h] == key;
                            assert(stray_row(m0, before[h]));
                            let j = choose|j: int|
                                0 <= j < i && (#[trigger] rows@[j]).0@ == before[h];
                            assert(rows@[j].0@ != rows@[i as int].0@);
                        }
                    }
                    assert(hits.no_duplicates());
                    assert(hits[before.len() as int] == key);
                    assert forall|j: int|
                        0 <= j < i + 1 && stray_row(
                            m0,
                            (#[trigger] rows@[j]).0@,
                        ) implies hits.contains(rows@[j].0@) by {
                        if j < i {
                            let h = choose|h: int|
                                0 <= h < before.len() && before[h] == rows@[j].0@;
                            assert(hits[h] == rows@[j].0@);
                        }
                    }
                    assert forall|h: int| 0 <= h < hits.len() implies stray_row(
                        m0,
                        #[trigger] hits[h],
                    ) && exists|j: int| 0 <= j < i + 1 && (#[trigger] rows@[j]).0@ == hits[h] by {
                        if h < before.len() {
                            assert(hits[h] == before[h]);
                            let j = choose|j: int|
                                0 <= j < i && (#[trigger] rows@[j]).0@ == before[h];
                            assert(rows@[j].0@ == hits[h]);
                        } else {
                            assert(rows@[i as int].0@ == hits[h]);
                        }
                    }
                } else {
                    assert(!stray_row(m0, key));
                }
            }
            if stray {
                n = n + 1;
            }
            i = i + 1;
        }
        proof {
            assert forall|k: Seq<char>| kv@.contains_key(k) implies !(exists|b: BranchId|
                #[trigger] stray_takes(m0, b, k)) by {
                if exists|b: BranchId| #[trigger] stray_takes(m0, b, k) {
                    let b = choose|b: BranchId| #[trigger] stray_takes(m0, b, k);
                    let id = merge_lock::lock_holder(m0, b)->0;
                    lemma_holder_bytes(m0, b, id);
                    keys::lemma_tagged_injective("merge_lock:"@, b.0, b.0);
                    hex::lemma_hex_reads_back(b.0@);
                    assert(merge_lock::records_lock(m0, merge_lock::lock_key(b), (b, id)));
                    let j = choose|j: int|
                        0 <= j < rows.len() && (#[trigger] rows@[j]).0@ == merge_lock::lock_key(b);
                    assert(merge_lock::records_lock(m0, rows@[j].0@, (b, id)));
                }
            }
            assert(kv@ =~= strays_unlocked(m0));
            let want = m0.dom().filter(|q: Seq<char>| stray_row(m0, q));
            assert(hits.to_set() =~= want) by {
                assert forall|q: Seq<char>| want.contains(q) implies hits.to_set().contains(q) by {
                    assert(m0.contains_key(q) && text::begins_with(q, "merge_lock:"@));
                    let j = choose|j: int| 0 <= j < rows.len() && (#[trigger] rows@[j]).0@ == q;
                    assert(stray_row(m0, rows@[j].0@));
                }
                assert forall|q: Seq<char>| hits.to_set().contains(q) implies want.contains(q) by {
                    let h = choose|h: int| 0 <= h < hits.len() && hits[h] == q;
                    assert(stray_row(m0, hits[h]));
                }
            }
            hits.unique_seq_to_set();
        }
        n
    }

    /// Drops every saga that did not come to its end, with the locks of its merge, and then gives
    /// back every lock whose merge has no saga; how many sagas and locks there were.
    pub fn compensate_orphans(&self, kv: &mut MemoryKv) -> (n: usize)
        ensures
            final(kv)@ == strays_unlocked(orphans_dropped(old(kv)@)),
            n == old(kv)@.dom().filter(|q: Seq<char>| orphan_row(old(kv)@, q)).len()
                + orphans_dropped(old(kv)@).dom().filter(
                |q: Seq<char>| stray_row(orphans_dropped(old(kv)@), q),
            ).len(),
    {
        let ghost m0 = kv@;
        let total = kv.len();
        let a = self.drop_orphans(kv);
        let ghost m1 = kv@;
        let b = self.unlock_strays(kv);
        proof {
            let x = m0.dom().filter(|q: Seq<char>| orphan_row(m0, q));
            let y = m1.dom().filter(|q: Seq<char>| stray_row(m1, q));
            assert(x.disjoint(y)) by {
                reveal_strlit("saga_state:");
                reveal_strlit("merge_lock:");
                assert forall|q: Seq<char>| x.contains(q) implies !y.contains(q) by {
                    if y.contains(q) {
                        keys::lemma_prefixes_differ(q, "saga_state:"@, q, "merge_lock:"@, 0);
                    }
                }
            }
            assert(x.union(y).subset_of(m0.dom()));
            vstd::set_lib::lemma_len_subset(x.union(y), m0.dom());
            vstd::set_lib::lemma_len_subset(x, m0.dom());
            vstd::set_lib::lemma_len_subset(y, m0.dom());
            vstd::set_lib::lemma_set_disjoint_lens(x, y);
        }
        a + b
    }
}

/// The bytes under a held lock are those of its holder.
pub proof fn lemma_holder_bytes(m: Map<Seq<char>, Seq<u8>>, b: BranchId, id: MergeId)
    requires
        merge_lock::lock_holder(m, b) == Some(id),
    ensures
        kv::value_at(m, merge_lock::lock_key(b)) == Some(id.0@),
{
    let v = kv::value_at(m, merge_lock::lock_key(b))->0;
    ids::lemma_array_exists(v);
}

/// What goes with a merge is the same in a store that only lost entries.
proof fn lemma_drop_takes_same(
    m: Map<Seq<char>, Seq<u8>>,
    cur: Map<Seq<char>, Seq<u8>>,
    merge_id: MergeId,
    k: Seq<char>,
)
    requires
        cur.contains_key(k),
        m.contains_pair(k, cur[k]),
    ensures
        drop_takes(cur, merge_id, k) == drop_takes(m, merge_id, k),
{
    assert(kv::value_at(cur, k) == kv::value_at(m, k));
    if unlock_takes(m, merge_id, k) && k != merge_lock::started_key(merge_id) {
        let b = choose|b: BranchId|
            k == #[trigger] merge_lock::lock_key(b) && kv::value_at(m, k) == Some(merge_id.0@);
        assert(k == merge_lock::lock_key(b) && kv::value_at(cur, k) == Some(merge_id.0@));
    }
    if unlock_takes(cur, merge_id, k) && k != merge_lock::started_key(merge_id) {
        let b = choose|b: BranchId|
            k == #[trigger] merge_lock::lock_key(b) && kv::value_at(cur, k) == Some(merge_id.0@);
        assert(k == merge_lock::lock_key(b) && kv::value_at(m, k) == Some(merge_id.0@));
    }
}

/// Once orphans are compensated, the merge that holds a lock has a saga, and every saga that is
/// left under its own key came to its end.
pub proof fn law_compensated(m: Map<Seq<char>, Seq<u8>>, b: BranchId, id: MergeId)
    ensures
        ({
            let after = strays_unlocked(orphans_dropped(m));
            &&& merge_lock::lock_holder(after, b) == Some(id) ==> saga_at(after, id) == Some(
                SagaPhase::Committed,
            )
            &&& saga_at(after, id) is Some ==> saga_at(after, id) == Some(SagaPhase::Committed)
        }),
{
    let m1 = orphans_dropped(m);
    let after = strays_unlocked(m1);
    let k = state_key(id);
    keys::lemma_tagged_injective("saga_state:"@, id.0, id.0);
    hex::lemma_hex_reads_back(id.0@);
    ids::lemma_array_of(id.0);
    assert(saga_merge(k) == Some(id.0@));
    if m.contains_key(k) && orphan_row(m, k) {
        assert(orphan_takes(m, k, k));
    }
    assert(m1.contains_key(k) ==> m[k].len() > 0 && m[k][0] == 6);
    assert forall|c: BranchId| !#[trigger] stray_takes(m1, c, k) by {
        if stray_takes(m1, c, k) {
            lemma_state_key_apart(id, c, merge_lock::lock_holder(m1, c)->0);
        }
    }
    assert(saga_at(after, id) == saga_at(m1, id));
    if merge_lock::lock_holder(after, b) == Some(id) {
        assert(merge_lock::lock_holder(m1, b) == Some(id));
        if saga_at(m1, id) is None {
            assert(stray_takes(m1, b, merge_lock::lock_key(b)));
        }
    }
}

/// Every saga and every lock is kept under the key that is built for it.
pub open spec fn own_keys(m: Map<Seq<char>, Seq<u8>>) -> bool {
    &&& forall|q: Seq<char>| #[trigger]
        m.contains_key(q) && text::begins_with(q, "saga_state:"@) ==> (saga_merge(q) matches Some(b)
            ==> q == state_key(MergeId(ids::array_of(b))))
    &&& forall|q: Seq<char>, lock: (BranchId, MergeId)| #[trigger]
        merge_lock::records_lock(m, q, lock) ==> q == merge_lock::lock_key(lock.0)
}

/// The keys that phases, batch markers, locks and starts of merges are kept under.
pub open spec fn built_key(q: Seq<char>, id: MergeId, seq: u32, b: BranchId) -> bool {
    ||| q == state_key(id)
    ||| q == marker_key(id, seq)
    ||| q == merge_lock::lock_key(b)
    ||| q == merge_lock::started_key(id)
}

/// Whatever is written of a merge under the keys that are built for it, every saga and every lock stays
/// under its own key; an empty store has none under any other.
pub proof fn law_written_rows_have_own_keys(
    m: Map<Seq<char>, Seq<u8>>,
    q: Seq<char>,
    v: Seq<u8>,
    id: MergeId,
    seq: u32,
    b: BranchId,
)
    requires
        own_keys(m),
        built_key(q, id, seq, b),
    ensures
        own_keys(m.insert(q, v)),
        own_keys(Map::empty()),
{
    let after = m.insert(q, v);
    reveal_strlit("saga_state:");
    reveal_strlit("saga_batch:");
    reveal_strlit("merge_lock:");
    reveal_strlit("merge_started:");
    assert("saga_state:"@[5] == 's' && "saga_batch:"@[5] == 'b');
    assert("merge_lock:"@[6] == 'l' && "merge_started:"@[6] == 's');
    keys::lemma_tagged_injective("saga_state:"@, id.0, id.0);
    keys::lemma_tagged_rest_injective("saga_batch:"@, id.0, hex::decimal(seq as nat), id.0, hex::decimal(
        seq as nat,
    ));
    keys::lemma_tagged_injective("merge_lock:"@, b.0, b.0);
    keys::lemma_tagged_injective("merge_started:"@, id.0, id.0);
    hex::lemma_hex_reads_back(id.0@);
    hex::lemma_hex_reads_back(b.0@);
    ids::lemma_array_of(id.0);
    assert forall|k: Seq<char>| #[trigger]
        after.contains_key(k) && text::begins_with(k, "saga_state:"@) implies (saga_merge(
        k,
    ) matches Some(x) ==> k == state_key(MergeId(ids::array_of(x)))) by {
        if k != q {
            assert(m.contains_key(k));
        } else if q == marker_key(id, seq) {
            keys::lemma_prefixes_differ(k, "saga_state:"@, q, "saga_batch:"@, 5);
        } else if q == merge_lock::lock_key(b) {
            keys::lemma_prefixes_differ(k, "saga_state:"@, q, "merge_lock:"@, 0);
        } else if q == merge_lock::started_key(id) {
            keys::lemma_prefixes_differ(k, "saga_state:"@, q, "merge_started:"@, 0);
        }
    }
    assert forall|k: Seq<char>, lock: (BranchId, MergeId)| #[trigger]
        merge_lock::records_lock(after, k, lock) implies k == merge_lock::lock_key(lock.0) by {
        if k != q {
            assert(merge_lock::records_lock(m, k, lock));
        } else if q == state_key(id) {
            keys::lemma_prefixes_differ(k, "merge_lock:"@, q, "saga_state:"@, 0);
        } else if q == marker_key(id, seq) {
            keys::lemma_prefixes_differ(k, "merge_lock:"@, q, "saga_batch:"@, 0);
        } else if q == merge_lock::started_key(id) {
            keys::lemma_prefixes_differ(k, "merge_lock:"@, q, "merge_started:"@, 6);
        }
    }
}

/// Compensating orphans once is enough: where sagas and locks are kept under their own keys, a second
/// round finds neither a saga to drop nor a lock to give back, and changes nothing.
pub proof fn law_second_round_finds_nothing(m: Map<Seq<char>, Seq<u8>>)
    requires
        own_keys(m),
    ensures
        ({
            let after = strays_unlocked(orphans_dropped(m));
            &&& strays_unlocked(orphans_dropped(after)) == after
            &&& after.dom().filter(|q: Seq<char>| orphan_row(after, q)).len()
                + orphans_dropped(after).dom().filter(
                |q: Seq<char>| stray_row(orphans_dropped(after), q),
            ).len() == 0
        }),
{
    let m1 = orphans_dropped(m);
    let after = strays_unlocked(m1);
    assert forall|q: Seq<char>| !orphan_row(after, q) by {
        if orphan_row(after, q) {
            assert(m.contains_key(q));
            assert(orphan_row(m, q));
            assert(orphan_takes(m, q, q));
        }
    }
    assert forall|q: Seq<char>, k: Seq<char>| !#[trigger] orphan_takes(after, q, k) by {
        assert(!orphan_row(after, q));
    }
    assert(orphans_dropped(after) =~= after);
    assert forall|q: Seq<char>| !stray_row(after, q) by {
        if stray_row(after, q) {
            let lock = choose|lock: (BranchId, MergeId)| #[trigger]
                merge_lock::records_lock(after, q, lock) && saga_at(after, lock.1) is None;
            assert(merge_lock::records_lock(m, q, lock));
            ids::lemma_array_of(lock.1.0);
            assert(merge_lock::lock_holder(after, lock.0) == Some(lock.1));
            law_compensated(m, lock.0, lock.1);
        }
    }
    assert forall|b: BranchId, k: Seq<char>| !#[trigger] stray_takes(after, b, k) by {
        if stray_takes(after, b, k) {
            law_compensated(m, b, merge_lock::lock_holder(after, b)->0);
        }
    }
    assert(strays_unlocked(after) =~= after);
    assert(after.dom().filter(|q: Seq<char>| orphan_row(after, q)) =~= Set::empty());
    assert(after.dom().filter(|q: Seq<char>| stray_row(after, q)) =~= Set::empty());
}

/// A saga that did not come to its end leaves nothing behind when orphans are compensated: no phase, no
/// marker, no edge batch, no start and no lock.
pub proof fn law_dropped_merge_leaves_nothing(
    m: Map<Seq<char>, Seq<u8>>,
    id: MergeId,
    b: BranchId,
    k: Seq<char>,
)
    requires
        orphan_row(m, state_key(id)),
    ensures
        ({
            let after = strays_unlocked(orphans_dropped(m));
            &&& saga_at(after, id) is None
            &&& !after.contains_key(merge_lock::started_key(id))
            &&& merge_lock::lock_holder(after, b) != Some(id)
            &&& after.contains_key(k) ==> !text::begins_with(k, marker_prefix(id))
                && !text::begins_with(k, payload_prefix(id))
        }),
{
    let m1 = orphans_dropped(m);
    let after = strays_unlocked(m1);
    let q = state_key(id);
    keys::lemma_tagged_injective("saga_state:"@, id.0, id.0);
    hex::lemma_hex_reads_back(id.0@);
    ids::lemma_array_of(id.0);
    assert(saga_merge(q) == Some(id.0@));
    assert(orphan_takes(m, q, q));
    assert(orphan_takes(m, q, merge_lock::started_key(id)));
    if merge_lock::lock_holder(after, b) == Some(id) {
        lemma_holder_bytes(after, b, id);
        assert(kv::value_at(m, merge_lock::lock_key(b)) == Some(id.0@));
        assert(unlock_takes(m, id, merge_lock::lock_key(b)));
        assert(orphan_takes(m, q, merge_lock::lock_key(b)));
    }
    if text::begins_with(k, marker_prefix(id)) || text::begins_with(k, payload_prefix(id)) {
        assert(orphan_takes(m, q, k));
    }
}

/// The row of a saga or a lock goes with no other merge than its own.
proof fn lemma_rows_go_with_their_merge(
    m: Map<Seq<char>, Seq<u8>>,
    id: MergeId,
    b: BranchId,
    other: MergeId,
)
    ensures
        drop_takes(m, other, state_key(id)) ==> other == id,
        drop_takes(m, other, merge_lock::lock_key(b)) ==> kv::value_at(m, merge_lock::lock_key(b))
            == Some(other.0@),
{
    let k = state_key(id);
    let l = merge_lock::lock_key(b);
    reveal_strlit("saga_state:");
    reveal_strlit("saga_batch:");
    reveal_strlit("saga_payload:");
    reveal_strlit("merge_lock:");
    keys::lemma_tagged_injective("saga_state:"@, id.0, other.0);
    keys::lemma_tagged_injective("merge_lock:"@, b.0, b.0);
    merge_lock::lemma_lock_keys_apart(b, other);
    lemma_state_key_apart(id, b, other);
    lemma_state_key_apart(other, b, other);
    assert(marker_prefix(other)[0] == 's' && marker_prefix(other)[5] == 'b');
    assert(payload_prefix(other)[0] == 's' && payload_prefix(other)[5] == 'p');
    if text::begins_with(k, marker_prefix(other)) {
        keys::lemma_prefixes_differ(k, "saga_state:"@, k, marker_prefix(other), 5);
    }
    if text::begins_with(k, payload_prefix(other)) {
        keys::lemma_prefixes_differ(k, "saga_state:"@, k, payload_prefix(other), 5);
    }
    if text::begins_with(l, marker_prefix(other)) {
        keys::lemma_prefixes_differ(l, "merge_lock:"@, l, marker_prefix(other), 0);
    }
    if text::begins_with(l, payload_prefix(other)) {
        keys::lemma_prefixes_differ(l, "merge_lock:"@, l, payload_prefix(other), 0);
    }
    if unlock_takes(m, other, k) {
        let c = choose|c: BranchId|
            k == #[trigger] merge_lock::lock_key(c) && kv::value_at(m, k) == Some(other.0@);
        lemma_state_key_apart(id, c, other);
    }
}

/// No saga is dropped, and no lock given back, on account of another merge: where sagas and locks are
/// kept under their own keys, a merge that came to its end keeps its phase and its locks when orphans
/// are compensated.
pub proof fn law_committed_merge_is_kept(m: Map<Seq<char>, Seq<u8>>, id: MergeId, b: BranchId)
    requires
        own_keys(m),
        saga_at(m, id) == Some(SagaPhase::Committed),
    ensures
        ({
            let after = strays_unlocked(orphans_dropped(m));
            &&& saga_at(after, id) == Some(SagaPhase::Committed)
            &&& merge_lock::lock_holder(m, b) == Some(id) ==> merge_lock::lock_holder(after, b)
                == Some(id)
        }),
{
    let m1 = orphans_dropped(m);
    let after = strays_unlocked(m1);
    let k = state_key(id);
    let l = merge_lock::lock_key(b);
    let held = merge_lock::lock_holder(m, b) == Some(id);
    reveal_strlit("saga_state:");
    reveal_strlit("merge_lock:");
    keys::lemma_tagged_injective("saga_state:"@, id.0, id.0);
    keys::lemma_tagged_injective("merge_lock:"@, b.0, b.0);
    hex::lemma_hex_reads_back(id.0@);
    assert(saga_merge(k) == Some(id.0@));
    if held {
        lemma_holder_bytes(m, b, id);
    }
    assert forall|q: Seq<char>| !#[trigger] orphan_takes(m, q, k) && (held ==> !orphan_takes(m, q, l)) by {
        if orphan_row(m, q) {
            match saga_merge(q) {
                Some(x) => {
                    let other = MergeId(ids::array_of(x));
                    lemma_rows_go_with_their_merge(m, id, b, other);
                    assert(q == state_key(other));
                    if held && other.0@ == id.0@ {
                        assert(other.0 =~= id.0);
                    }
                    assert(!orphan_row(m, k));
                },
                None => {
                    keys::lemma_prefixes_differ(q, "saga_state:"@, l, "merge_lock:"@, 0);
                },
            }
        }
    }
    assert(saga_at(m1, id) == Some(SagaPhase::Committed));
    assert forall|c: BranchId| !#[trigger] stray_takes(m1, c, k) by {
        if merge_lock::lock_holder(m1, c) is Some {
            lemma_state_key_apart(id, c, merge_lock::lock_holder(m1, c)->0);
        }
    }
    if held {
        assert forall|q: Seq<char>| !#[trigger] orphan_takes(m, q, l) by {
            assert(!orphan_takes(m, q, k));
        }
        assert(m1.contains_pair(l, m[l]));
        assert forall|c: BranchId| !#[trigger] stray_takes(m1, c, l) by {
            if merge_lock::lock_holder(m1, c) is Some {
                merge_lock::lemma_lock_keys_apart(b, merge_lock::lock_holder(m1, c)->0);
                keys::lemma_tagged_injective("merge_lock:"@, c.0, b.0);
            }
        }
        assert(after.contains_pair(l, m[l]));
    }
}

/// A phase that was recorded is the phase that is read.
pub proof fn law_phase_reads_back(
    m: Map<Seq<char>, Seq<u8>>,
    merge_id: MergeId,
    phase: SagaPhase,
)
    ensures
        saga_at(m.insert(state_key(merge_id), phase_record(phase)), merge_id) == Some(phase),
{
    bytes::lemma_le_spans();
    bytes::lemma_le_reads_back(phase_seq(phase) as nat, 4);
    let v = phase_record(phase);
    assert(v.subrange(1, 5) =~= bytes::le(phase_seq(phase) as nat, 4));
}

/// Once a saga is purged its merge has no phase, and the sagas of other merges are untouched.
pub proof fn law_purged_saga_is_gone(
    m: Map<Seq<char>, Seq<u8>>,
    merge_id: MergeId,
    other: MergeId,
)
    ensures
        saga_at(saga_purged(m, merge_id), merge_id) is None,
        other != merge_id ==> saga_at(saga_purged(m, merge_id), other) == saga_at(m, other),
{
    reveal_strlit("saga_state:");
    reveal_strlit("saga_batch:");
    reveal_strlit("saga_payload:");
    let k = state_key(other);
    keys::lemma_tagged_injective("saga_state:"@, merge_id.0, other.0);
    keys::lemma_tagged_injective("saga_state:"@, other.0, other.0);
    let e = Seq::<char>::empty();
    keys::lemma_tagged_rest_injective("saga_batch:"@, merge_id.0, e, merge_id.0, e);
    keys::lemma_tagged_rest_injective("saga_payload:"@, merge_id.0, e, merge_id.0, e);
    assert(!text::begins_with(k, marker_prefix(merge_id))) by {
        if text::begins_with(k, marker_prefix(merge_id)) {
            assert(marker_prefix(merge_id)[5] == "saga_batch:"@[5]);
            keys::lemma_prefixes_differ(k, "saga_state:"@, k, marker_prefix(merge_id), 5);
        }
    }
    assert(!text::begins_with(k, payload_prefix(merge_id))) by {
        if text::begins_with(k, payload_prefix(merge_id)) {
            assert(payload_prefix(merge_id)[5] == "saga_payload:"@[5]);
            keys::lemma_prefixes_differ(k, "saga_state:"@, k, payload_prefix(merge_id), 5);
        }
    }
}

} // verus!
