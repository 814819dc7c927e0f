//! Merge locks: `merge_lock:{branch}` names the merge that holds a branch, and
//! `merge_started:{merge}` when that merge began.

use crate::bytes;
use crate::bytes::{le_u64, u64_le};
use crate::clock::now_epoch_ms;
use crate::hex;
use crate::hex::{array16, parse_hex16};
use crate::ids;
use crate::ids::{BranchId, MergeId, bytes16};
use crate::keys;
use crate::keys::{strip_prefix, tagged_key};
use crate::kv;
use crate::kv::{CasError, MemoryKv};
use crate::text;
use vstd::prelude::*;

verus! {

/// `merge_started:{merge}`.
pub open spec fn started_key(merge_id: MergeId) -> Seq<char> {
    keys::tagged("merge_started:"@, merge_id.0@)
}

/// `merge_lock:{branch}`.
pub open spec fn lock_key(branch_id: BranchId) -> Seq<char> {
    keys::tagged("merge_lock:"@, branch_id.0@)
}

/// The merge that holds the lock of a branch.
pub open spec fn lock_holder(m: Map<Seq<char>, Seq<u8>>, branch_id: BranchId) -> Option<MergeId> {
    match kv::value_at(m, lock_key(branch_id)) {
        Some(v) => if v.len() == 16 {
            Some(MergeId(ids::array_of(v)))
        } else {
            None
        },
        None => None,
    }
}

/// A merge has outlived `ttl_hours` at `now_ms`: it has a start on record, further back than that.
pub open spec fn ttl_expired(
    m: Map<Seq<char>, Seq<u8>>,
    merge_id: MergeId,
    now_ms: u64,
    ttl_hours: u32,
) -> bool {
    match kv::value_at(m, started_key(merge_id)) {
        Some(v) => v.len() == 8 && now_ms - bytes::le_value(v) > ttl_hours * 3_600_000,
        None => false,
    }
}

/// The lock of `branch_id` is given back and the start of `merge_id` forgotten.
pub open spec fn lock_released(
    m: Map<Seq<char>, Seq<u8>>,
    branch_id: BranchId,
    merge_id: MergeId,
) -> Map<Seq<char>, Seq<u8>> {
    m.remove(lock_key(branch_id)).remove(started_key(merge_id))
}

/// A sweep of one lock.
pub open spec fn swept_one(
    m: Map<Seq<char>, Seq<u8>>,
    lock: (BranchId, MergeId),
    now_ms: u64,
    ttl_hours: u32,
) -> bool {
    ttl_expired(m, lock.1, now_ms, ttl_hours) && kv::value_at(m, lock_key(lock.0)) == Some(lock.1.0@)
}

/// The store, and the number of locks given back, after a sweep of `locks` in order.
pub open spec fn swept(
    m: Map<Seq<char>, Seq<u8>>,
    locks: Seq<(BranchId, MergeId)>,
    now_ms: u64,
    ttl_hours: u32,
) -> (Map<Seq<char>, Seq<u8>>, nat)
    decreases locks.len(),
{
    if locks.len() == 0 {
        (m, 0)
    } else {
        let (m1, n1) = swept(m, locks.drop_last(), now_ms, ttl_hours);
        let lock = locks.last();
        if swept_one(m1, lock, now_ms, ttl_hours) {
            (lock_released(m1, lock.0, lock.1), n1 + 1)
        } else {
            (m1, n1)
        }
    }
}

/// `key` records that the merge `lock.1` holds the branch `lock.0`.
pub open spec fn records_lock(
    m: Map<Seq<char>, Seq<u8>>,
    key: Seq<char>,
    lock: (BranchId, MergeId),
) -> bool {
    &&& m.contains_key(key)
    &&& text::begins_with(key, "merge_lock:"@)
    &&& hex::bytes_of_hex(keys::rest_of(key, "merge_lock:"@), 16) == Some(lock.0.0@)
    &&& m[key] == lock.1.0@
}

/// Each of `locks` is recorded by a key of its own, and `at` are these keys.
pub open spec fn locks_listed(
    m: Map<Seq<char>, Seq<u8>>,
    at: Seq<Seq<char>>,
    locks: Seq<(BranchId, MergeId)>,
) -> bool {
    &&& at.len() == locks.len()
    &&& at.no_duplicates()
    &&& forall|i: int| 0 <= i < at.len() ==> records_lock(m, #[trigger] at[i], locks[i])
}

/// `locks` are the locks on record, once for each key that records one.
pub open spec fn locks_on_record(
    m: Map<Seq<char>, Seq<u8>>,
    locks: Seq<(BranchId, MergeId)>,
) -> bool {
    exists|at: Seq<Seq<char>>| #[trigger]
        locks_listed(m, at, locks) && forall|key: Seq<char>, lock: (BranchId, MergeId)|
            #![trigger records_lock(m, key, lock)]
            records_lock(m, key, lock) ==> at.contains(key)
}

/// A lock on record is among those listed.
pub proof fn lemma_locks_complete(
    m: Map<Seq<char>, Seq<u8>>,
    locks: Seq<(BranchId, MergeId)>,
    key: Seq<char>,
    lock: (BranchId, MergeId),
)
    requires
        locks_on_record(m, locks),
        records_lock(m, key, lock),
    ensures
        locks.contains(lock),
{
    let at = choose|at: Seq<Seq<char>>| #[trigger]
        locks_listed(m, at, locks) && forall|key: Seq<char>, lock: (BranchId, MergeId)|
            #![trigger records_lock(m, key, lock)]
            records_lock(m, key, lock) ==> at.contains(key);
    assert(at.contains(key));
    let i = choose|i: int| 0 <= i < at.len() && at[i] == key;
    assert(records_lock(m, at[i], locks[i]));
    assert(locks[i].0.0 =~= lock.0.0);
    assert(locks[i].1.0 =~= lock.1.0);
    assert(locks[i] == lock);
}

/// Builds `merge_started:{merge}`.
pub fn merge_started_key(merge_id: MergeId) -> (r: String)
    ensures
        r@ == started_key(merge_id),
{
    tagged_key("merge_started:", &merge_id.0)
}

/// Builds `merge_lock:{branch}`.
pub fn merge_lock_key(branch_id: BranchId) -> (r: String)
    ensures
        r@ == lock_key(branch_id),
{
    tagged_key("merge_lock:", &branch_id.0)
}

/// Records when a merge began.
pub fn record_merge_started_ms(kv: &mut MemoryKv, merge_id: MergeId, started_ms: u64)
    ensures
        final(kv)@ == old(kv)@.insert(started_key(merge_id), bytes::le(started_ms as nat, 8)),
{
    kv.set(merge_started_key(merge_id).as_str(), u64_le(started_ms));
}

/// Whether a merge has outlived `ttl_hours` at `now_ms`.
pub fn merge_ttl_expired_ms(kv: &MemoryKv, merge_id: MergeId, now_ms: u64, ttl_hours: u32) -> (r:
    bool)
    ensures
        r == ttl_expired(kv@, merge_id, now_ms, ttl_hours),
{
    match kv.get(merge_started_key(merge_id).as_str()) {
        Some(v) => {
            if v.len() != 8 {
                return false;
            }
            let started = le_u64(&v);
            let limit: u64 = ttl_hours as u64 * 3_600_000;
            now_ms > started && now_ms - started > limit
        },
        None => false,
    }
}

/// Takes the lock of a branch for a merge that begins at `now_ms`.
pub fn acquire_merge_lock_at(
    kv: &mut MemoryKv,
    branch_id: BranchId,
    merge_id: MergeId,
    now_ms: u64,
) -> (r: Result<(), CasError>)
    ensures
        r is Ok <==> !old(kv)@.contains_key(lock_key(branch_id)),
        r is Ok ==> final(kv)@ == old(kv)@.insert(lock_key(branch_id), merge_id.0@).insert(
            started_key(merge_id),
            bytes::le(now_ms as nat, 8),
        ),
        r matches Err(CasError::Mismatch(k)) ==> k@ == lock_key(branch_id),
        r is Err ==> final(kv)@ == old(kv)@,
{
    match kv.compare_and_swap(merge_lock_key(branch_id).as_str(), None, bytes16(&merge_id.0)) {
        Ok(()) => {
            record_merge_started_ms(kv, merge_id, now_ms);
            Ok(())
        },
        Err(e) => Err(e),
    }
}

/// Takes the lock of a branch for a merge that begins now.
pub fn acquire_merge_lock(kv: &mut MemoryKv, branch_id: BranchId, merge_id: MergeId) -> (r: Result<
    (),
    CasError,
>)
    ensures
        r is Ok <==> !old(kv)@.contains_key(lock_key(branch_id)),
        r is Ok ==> exists|now_ms: u64|
            final(kv)@ == #[trigger] old(kv)@.insert(lock_key(branch_id), merge_id.0@).insert(
                started_key(merge_id),
                bytes::le(now_ms as nat, 8),
            ),
        r matches Err(CasError::Mismatch(k)) ==> k@ == lock_key(branch_id),
        r is Err ==> final(kv)@ == old(kv)@,
{
    acquire_merge_lock_at(kv, branch_id, merge_id, now_epoch_ms())
}

/// Gives the lock of a branch back, if the merge holds it.
pub fn release_merge_lock(kv: &mut MemoryKv, branch_id: BranchId, merge_id: MergeId) -> (r: Result<
    (),
    CasError,
>)
    ensures
        r is Ok <==> kv::value_at(old(kv)@, lock_key(branch_id)) == Some(merge_id.0@),
        r is Ok ==> final(kv)@ == lock_released(old(kv)@, branch_id, merge_id),
        r matches Err(CasError::Mismatch(k)) ==> k@ == lock_key(branch_id),
        r is Err ==> final(kv)@ == old(kv)@,
{
    match kv.compare_and_delete(merge_lock_key(branch_id).as_str(), &bytes16(&merge_id.0)) {
        Ok(()) => {
            kv.delete(merge_started_key(merge_id).as_str());
            Ok(())
        },
        Err(e) => Err(e),
    }
}

/// Gives a lock back once its merge has outlived `ttl_hours`.
pub fn sweep_expired_merge_intents(
    kv: &mut MemoryKv,
    branch_id: BranchId,
    merge_id: MergeId,
    now_ms: u64,
    ttl_hours: u32,
) -> (r: Result<bool, CasError>)
    ensures
        r == Ok::<bool, CasError>(false) <==> !ttl_expired(old(kv)@, merge_id, now_ms, ttl_hours),
        r == Ok::<bool, CasError>(true) <==> swept_one(
            old(kv)@,
            (branch_id, merge_id),
            now_ms,
            ttl_hours,
        ),
        final(kv)@ == (if swept_one(old(kv)@, (branch_id, merge_id), now_ms, ttl_hours) {
            lock_released(old(kv)@, branch_id, merge_id)
        } else {
            old(kv)@
        }),
{
    if !merge_ttl_expired_ms(kv, merge_id, now_ms, ttl_hours) {
        return Ok(false);
    }
    match release_merge_lock(kv, branch_id, merge_id) {
        Ok(()) => Ok(true),
        Err(e) => Err(e),
    }
}

/// The merge that holds the lock of a branch.
pub fn merge_lock_holder(kv: &MemoryKv, branch_id: BranchId) -> (r: Option<MergeId>)
    ensures
        r == lock_holder(kv@, branch_id),
{
    match kv.get(merge_lock_key(branch_id).as_str()) {
        Some(v) => {
            if v.len() != 16 {
                return None;
            }
            let a = array16(&v);
            proof {
                ids::lemma_array_of(a);
            }
            Some(MergeId(a))
        },
        None => None,
    }
}

/// Every lock on record.
pub fn scan_merge_lock_holders(kv: &MemoryKv) -> (r: Vec<(BranchId, MergeId)>)
    ensures
        locks_on_record(kv@, r@),
{
    let rows = kv.scan_prefix("merge_lock:");
    let mut out: Vec<(BranchId, MergeId)> = Vec::new();
    let ghost mut at: Seq<Seq<char>> = Seq::empty();
    let mut i: usize = 0;
    while i < rows.len()
        invariant
            i <= rows.len(),
            kv::scanned(kv@, "merge_lock:"@, rows@),
            locks_listed(kv@, at, out@),
            forall|k: Seq<char>| #[trigger]
                at.contains(k) ==> exists|s: int| 0 <= s < i && (#[trigger] rows[s]).0@ == k,
            forall|s: int, lock: (BranchId, MergeId)|
                #![trigger records_lock(kv@, rows[s].0@, lock)]
                0 <= s < i && records_lock(kv@, rows[s].0@, lock) ==> at.contains(rows[s].0@),
        decreases rows.len() - i,
    {
        let ghost before = at;
        let ghost key = rows@[i as int].0@;
        assert(text::begins_with(key, "merge_lock:"@) && kv@.contains_pair(key, rows@[i as int].1@));
        let mut found: Option<(BranchId, MergeId)> = None;
        if let Some(hex) = strip_prefix(rows[i].0.as_str(), "merge_lock:") {
            if let Some(b) = parse_hex16(hex.as_str()) {
                if rows[i].1.len() == 16 {
                    found = Some((BranchId(b), MergeId(array16(&rows[i].1))));
                }
            }
        }
        if let Some(lock) = found {
            out.push(lock);
            proof {
                at = at.push(key);
                assert(records_lock(kv@, key, lock));
                assert(!before.contains(key));
                assert(at.last() == key);
                assert forall|k: Seq<char>| #[trigger] at.contains(k) implies exists|s: int|
                    0 <= s < i + 1 && (#[trigger] rows[s]).0@ == k by {
                    if k == key {
                        assert(rows[i as int].0@ == k);
                    } else {
                        let j = choose|j: int| 0 <= j < at.len() && at[j] == k;
                        assert(before[j] == k);
                        assert(before.contains(k));
                        let s = choose|s: int| 0 <= s < i && (#[trigger] rows[s]).0@ == k;
                        assert(rows[s].0@ == k);
                    }
                }
                assert forall|k: Seq<char>| before.contains(k) implies #[trigger] at.contains(k) by {
                    let j = choose|j: int| 0 <= j < before.len() && before[j] == k;
                    assert(at[j] == k);
                }
                assert(at[at.len() - 1] == key);
            }
        } else {
            assert forall|l: (BranchId, MergeId)| !records_lock(kv@, key, l) by {}
        }
        i = i + 1;
    }
    proof {
        assert forall|key: Seq<char>, lock: (BranchId, MergeId)|
            #![trigger records_lock(kv@, key, lock)]
            records_lock(kv@, key, lock) implies at.contains(key) by {
            let s = choose|s: int| 0 <= s < rows.len() && (#[trigger] rows[s]).0@ == key;
            assert(records_lock(kv@, rows[s].0@, lock));
        }
    }
    out
}

/// Gives back every lock whose merge has outlived `ttl_hours`; how many there were.
pub fn sweep_all_expired_merge_intents(kv: &mut MemoryKv, now_ms: u64, ttl_hours: u32) -> (n: usize)
    ensures
        exists|locks: Seq<(BranchId, MergeId)>|
            locks_on_record(old(kv)@, locks) && (final(kv)@, n as nat) == #[trigger] swept(
                old(kv)@,
                locks,
                now_ms,
                ttl_hours,
            ),
        forall|b: BranchId, id: MergeId|
            #[trigger] kv::value_at(final(kv)@, lock_key(b)) == Some(id.0@) ==> !#[trigger] ttl_expired(
                final(kv)@,
                id,
                now_ms,
                ttl_hours,
            ),
{
    let ghost m0 = kv@;
    let locks = scan_merge_lock_holders(kv);
    let mut cleared: usize = 0;
    let mut i: usize = 0;
    assert(locks@.take(0) =~= Seq::<(BranchId, MergeId)>::empty());
    while i < locks.len()
        invariant
            i <= locks.len(),
            cleared <= i,
            locks_on_record(m0, locks@),
            (kv@, cleared as nat) == swept(m0, locks@.take(i as int), now_ms, ttl_hours),
        decreases locks.len() - i,
    {
        let (branch, mid) = locks[i];
        proof {
            assert(locks@.take(i + 1).drop_last() =~= locks@.take(i as int));
            assert(locks@.take(i + 1).last() == locks@[i as int]);
        }
        match sweep_expired_merge_intents(kv, branch, mid, now_ms, ttl_hours) {
            Ok(true) => {
                cleared = cleared + 1;
            },
            _ => {},
        }
        i = i + 1;
    }
    proof {
        assert(locks@.take(locks@.len() as int) =~= locks@);
        lemma_swept_leaves_none(m0, locks@, now_ms, ttl_hours);
    }
    cleared
}

/// A lock key is no start key.
pub proof fn lemma_lock_keys_apart(b: BranchId, id: MergeId)
    ensures
        lock_key(b) != started_key(id),
{
    reveal_strlit("merge_lock:");
    reveal_strlit("merge_started:");
    keys::lemma_tagged_injective("merge_lock:"@, b.0, b.0);
    keys::lemma_tagged_injective("merge_started:"@, id.0, id.0);
    keys::lemma_prefixes_differ(lock_key(b), "merge_lock:"@, started_key(id), "merge_started:"@, 6);
}

/// A sweep only takes entries out.
proof fn lemma_swept_shrinks(
    m: Map<Seq<char>, Seq<u8>>,
    locks: Seq<(BranchId, MergeId)>,
    now_ms: u64,
    ttl_hours: u32,
)
    ensures
        forall|k: Seq<char>| #[trigger]
            swept(m, locks, now_ms, ttl_hours).0.contains_key(k) ==> m.contains_pair(
                k,
                swept(m, locks, now_ms, ttl_hours).0[k],
            ),
    decreases locks.len(),
{
    if locks.len() > 0 {
        lemma_swept_shrinks(m, locks.drop_last(), now_ms, ttl_hours);
        let m1 = swept(m, locks.drop_last(), now_ms, ttl_hours).0;
        let m2 = swept(m, locks, now_ms, ttl_hours).0;
        assert forall|k: Seq<char>| #[trigger] m2.contains_key(k) implies m.contains_pair(
            k,
            m2[k],
        ) by {
            assert(m1.contains_key(k));
        }
    }
}

/// After a sweep of `locks`, none of them is both held and expired.
proof fn lemma_swept_settles(
    m: Map<Seq<char>, Seq<u8>>,
    locks: Seq<(BranchId, MergeId)>,
    now_ms: u64,
    ttl_hours: u32,
    lock: (BranchId, MergeId),
)
    requires
        locks.contains(lock),
    ensures
        !swept_one(swept(m, locks, now_ms, ttl_hours).0, lock, now_ms, ttl_hours),
    decreases locks.len(),
{
    let front = locks.drop_last();
    let (m1, n1) = swept(m, front, now_ms, ttl_hours);
    let last = locks.last();
    if front.contains(lock) {
        lemma_swept_settles(m, front, now_ms, ttl_hours, lock);
    } else {
        let j = choose|j: int| 0 <= j < locks.len() && locks[j] == lock;
        assert(j == locks.len() - 1) by {
            if j < locks.len() - 1 {
                assert(front[j] == lock);
            }
        }
        lemma_lock_keys_apart(last.0, last.1);
    }
}

/// After a sweep of all locks on record, no lock is held by an expired merge.
proof fn lemma_swept_leaves_none(
    m: Map<Seq<char>, Seq<u8>>,
    locks: Seq<(BranchId, MergeId)>,
    now_ms: u64,
    ttl_hours: u32,
)
    requires
        locks_on_record(m, locks),
    ensures
        forall|b: BranchId, id: MergeId|
            #[trigger] kv::value_at(swept(m, locks, now_ms, ttl_hours).0, lock_key(b)) == Some(id.0@)
                ==> !#[trigger] ttl_expired(
                swept(m, locks, now_ms, ttl_hours).0,
                id,
                now_ms,
                ttl_hours,
            ),
{
    let m1 = swept(m, locks, now_ms, ttl_hours).0;
    assert forall|b: BranchId, id: MergeId|
        #[trigger] kv::value_at(m1, lock_key(b)) == Some(id.0@) implies !#[trigger] ttl_expired(
        m1,
        id,
        now_ms,
        ttl_hours,
    ) by {
        lemma_swept_shrinks(m, locks, now_ms, ttl_hours);
        assert(m1.contains_key(lock_key(b)));
        keys::lemma_tagged_injective("merge_lock:"@, b.0, b.0);
        hex::lemma_hex_reads_back(b.0@);
        lemma_locks_complete(m, locks, lock_key(b), (b, id));
        lemma_swept_settles(m, locks, now_ms, ttl_hours, (b, id));
    }
}

/// Taking a free lock and giving it back leaves the store as it was, but for the start of the
/// merge, which is then on record no more.
pub proof fn law_acquire_then_release(
    m: Map<Seq<char>, Seq<u8>>,
    branch_id: BranchId,
    merge_id: MergeId,
    now_ms: u64,
)
    requires
        !m.contains_key(lock_key(branch_id)),
    ensures
        lock_released(
            m.insert(lock_key(branch_id), merge_id.0@).insert(
                started_key(merge_id),
                bytes::le(now_ms as nat, 8),
            ),
            branch_id,
            merge_id,
        ) == m.remove(started_key(merge_id)),
{
    lemma_lock_keys_apart(branch_id, merge_id);
    assert(lock_released(
        m.insert(lock_key(branch_id), merge_id.0@).insert(
            started_key(merge_id),
            bytes::le(now_ms as nat, 8),
        ),
        branch_id,
        merge_id,
    ) =~= m.remove(started_key(merge_id)));
}

/// Whoever takes a lock holds it, and the locks of other branches stay with their holders.
pub proof fn law_acquired_lock_is_held(
    m: Map<Seq<char>, Seq<u8>>,
    branch_id: BranchId,
    merge_id: MergeId,
    now_ms: u64,
    other: BranchId,
)
    ensures
        ({
            let after = m.insert(lock_key(branch_id), merge_id.0@).insert(
                started_key(merge_id),
                bytes::le(now_ms as nat, 8),
            );
            &&& lock_holder(after, branch_id) == Some(merge_id)
            &&& other != branch_id ==> lock_holder(after, other) == lock_holder(m, other)
        }),
{
    lemma_lock_keys_apart(branch_id, merge_id);
    lemma_lock_keys_apart(other, merge_id);
    ids::lemma_array_of(merge_id.0);
    keys::lemma_tagged_injective("merge_lock:"@, branch_id.0, other.0);
}

} // verus!
