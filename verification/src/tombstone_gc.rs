//! Removing tombstones that nothing needs any more.

use crate::chunk;
use crate::chunk::chunk_id;
use crate::codec;
use crate::codec::names_from_json;
use crate::graph;
use crate::graph::{GraphView, InMemoryGraph, RevisionStatus, RevisionView};
use crate::ids::{BranchId, IdentityId, NodeRevisionId, bytes16};
use crate::kv;
use crate::kv::MemoryKv;
use crate::migration;
use crate::migration::read_pair;
use crate::overrides;
use crate::overrides::delete_eto_for_source_revision;
use crate::query_engine;
use crate::query_engine::is_live;
use crate::revision_lineage;
use crate::revision_lineage::retire_revision_to_tombstone_at;
use crate::seqs;
use crate::text;
use crate::text::{same_bytes, text_begins_with};
use crate::vector_cleanup_queue::VectorCleanupQueue;
use crate::wal;
use crate::wal::{MutationLog, RecordView};
use vstd::prelude::*;

verus! {

/// What a round of removal did.
#[derive(Debug, Clone, Copy, PartialEq, Eq, Structural, Default)]
pub struct GcDrainReport {
    pub attempted: usize,
    pub deleted_ok: usize,
    pub requeued: usize,
}

/// Why a revision is to be removed.
#[derive(Debug, Clone, Copy, PartialEq, Eq, Structural)]
pub enum DeleteReason {
    TombstoneExpired,
}

/// A revision that is to be removed.
#[derive(Debug, Clone, Copy)]
pub struct DeleteJob {
    pub revision_id: NodeRevisionId,
    pub branch_id: BranchId,
    pub reason: DeleteReason,
}

/// Revisions that are to be removed, first come first served.
#[derive(Debug)]
pub struct GraphDeleteQueue {
    jobs: Vec<DeleteJob>,
}

impl View for GraphDeleteQueue {
    type V = Seq<DeleteJob>;

    closed spec fn view(&self) -> Seq<DeleteJob> {
        self.jobs@
    }
}

impl GraphDeleteQueue {
    /// Nothing is to be removed.
    pub fn new() -> (r: Self)
        ensures
            r@ == Seq::<DeleteJob>::empty(),
    {
        GraphDeleteQueue { jobs: Vec::new() }
    }

    /// Puts a job at the end.
    pub fn enqueue(&mut self, job: DeleteJob)
        ensures
            final(self)@ == old(self)@.push(job),
    {
        self.jobs.push(job);
    }

    /// Takes the job in front.
    pub fn dequeue(&mut self) -> (r: Option<DeleteJob>)
        ensures
            match r {
                Some(j) => old(self)@.len() > 0 && j == old(self)@[0] && final(self)@ == old(
                    self,
                )@.skip(1),
                None => old(self)@.len() == 0 && final(self)@ == old(self)@,
            },
    {
        if self.jobs.len() == 0 {
            return None;
        }
        let ghost before = self.jobs@;
        let j = self.jobs.remove(0);
        assert(self.jobs@ =~= before.skip(1));
        Some(j)
    }

    /// How many jobs wait.
    pub fn depth(&self) -> (n: usize)
        ensures
            n == self@.len(),
    {
        self.jobs.len()
    }
}

/// A branch binds something to a revision, provisional bindings aside.
pub open spec fn binds_to(m: Map<Seq<char>, Seq<u8>>, k: Seq<char>, rid: NodeRevisionId) -> bool {
    &&& m.contains_key(k)
    &&& text::begins_with(k, "ri:"@)
    &&& !text::begins_with(k, "ri:provisional:"@)
    &&& m[k] == rid.0@
}

/// Something is bound to a revision.
pub open spec fn is_bound(m: Map<Seq<char>, Seq<u8>>, rid: NodeRevisionId) -> bool {
    exists|k: Seq<char>| #[trigger] binds_to(m, k, rid)
}

/// The id that a text of thirty-two bytes stands for; a pair of bytes that is no number counts as
/// zero.
pub open spec fn loose_id(s: Seq<char>) -> Option<Seq<u8>> {
    let b = vstd::utf8::encode_utf8(s);
    if b.len() == 32 {
        Some(Seq::new(16, |i: int| migration::loose_pair(b[2 * i], b[2 * i + 1])))
    } else {
        None
    }
}

/// A snapshot that lists ids by name lists a revision.
pub open spec fn snapshot_lists(v: Seq<u8>, rid: NodeRevisionId) -> bool {
    match codec::names_of_json(v) {
        Some(names) => exists|i: int|
            0 <= i < names.len() && loose_id(#[trigger] names[i]) == Some(rid.0@),
        None => false,
    }
}

/// Some snapshot lists a revision.
pub open spec fn in_snapshot(m: Map<Seq<char>, Seq<u8>>, rid: NodeRevisionId) -> bool {
    exists|k: Seq<char>| #[trigger]
        m.contains_key(k) && text::begins_with(k, "ris:"@) && snapshot_lists(m[k], rid)
}

/// A live revision of a branch leads to an identity.
pub open spec fn referenced_by(
    g: GraphView,
    r: RevisionView,
    branch: BranchId,
    identity: IdentityId,
) -> bool {
    r.branch_id == branch && query_engine::live(r.status) && g.targets(r.revision_id, identity)
}

/// Some live revision of a branch leads to an identity.
pub open spec fn referenced(g: GraphView, branch: BranchId, identity: IdentityId) -> bool {
    exists|i: int|
        0 <= i < g.revisions.len() && referenced_by(g, #[trigger] g.revisions[i], branch, identity)
}

/// Whether some live revision of a branch leads to an identity.
pub fn tombstone_needed_for_inbound_bridge(
    g: &InMemoryGraph,
    branch: BranchId,
    identity: IdentityId,
) -> (r: bool)
    ensures
        r == referenced(g@, branch, identity),
{
    let revs = g.revisions();
    let ghost s = g@.revisions;
    let mut i: usize = 0;
    while i < revs.len()
        invariant
            i <= revs.len(),
            s == graph::revision_views(revs@),
            s == g@.revisions,
            forall|j: int| 0 <= j < i ==> !referenced_by(g@, #[trigger] s[j], branch, identity),
        decreases revs.len() - i,
    {
        assert(s[i as int] == revs@[i as int]@);
        if revs[i].branch_id == branch && is_live(revs[i].status) && g.revision_targets(
            revs[i].revision_id,
            identity,
        ) {
            assert(referenced_by(g@, s[i as int], branch, identity));
            return true;
        }
        i = i + 1;
    }
    false
}

/// A tombstone has been one for as long as it is kept; one that tells no time has.
pub open spec fn expired(r: RevisionView, retention_ms: u64, now_ms: u64) -> bool {
    match r.tombstoned_at_ms {
        Some(t) => (if now_ms >= t {
            now_ms - t
        } else {
            0
        }) >= retention_ms,
        None => true,
    }
}

/// A tombstone that nothing needs any more.
pub open spec fn eligible(
    g: GraphView,
    m: Map<Seq<char>, Seq<u8>>,
    log: Seq<RecordView>,
    retention_ms: u64,
    now_ms: u64,
    r: RevisionView,
) -> bool {
    &&& r.status == RevisionStatus::Tombstone
    &&& expired(r, retention_ms, now_ms)
    &&& !is_bound(m, r.revision_id)
    &&& !in_snapshot(m, r.revision_id)
    &&& !wal::in_flight_on(log, r.revision_id)
    &&& !referenced(g, r.branch_id, r.identity_id)
}

/// The tombstones among the first `n` revisions that nothing needs any more.
pub open spec fn eligible_among(
    g: GraphView,
    m: Map<Seq<char>, Seq<u8>>,
    log: Seq<RecordView>,
    retention_ms: u64,
    now_ms: u64,
    n: nat,
) -> Seq<NodeRevisionId>
    decreases n,
{
    if n == 0 {
        Seq::empty()
    } else {
        let front = eligible_among(g, m, log, retention_ms, now_ms, (n - 1) as nat);
        if eligible(g, m, log, retention_ms, now_ms, g.revisions[n - 1]) {
            front.push(g.revisions[n - 1].revision_id)
        } else {
            front
        }
    }
}

/// Whether something is bound to a revision.
fn bound_somewhere(kv: &MemoryKv, rid: NodeRevisionId) -> (r: bool)
    ensures
        r == is_bound(kv@, rid),
{
    let rows = kv.scan_prefix("ri:");
    let want = bytes16(&rid.0);
    let mut i: usize = 0;
    while i < rows.len()
        invariant
            i <= rows.len(),
            want@ == rid.0@,
            kv::scanned(kv@, "ri:"@, rows@),
            forall|j: int| 0 <= j < i ==> !binds_to(kv@, (#[trigger] rows@[j]).0@, rid),
        decreases rows.len() - i,
    {
        assert(kv@.contains_pair(rows@[i as int].0@, rows@[i as int].1@));
        if !text_begins_with(rows[i].0.as_str(), "ri:provisional:") && same_bytes(
            &rows[i].1,
            &want,
        ) {
            assert(binds_to(kv@, rows@[i as int].0@, rid));
            return true;
        }
        i = i + 1;
    }
    proof {
        assert forall|k: Seq<char>| !(#[trigger] binds_to(kv@, k, rid)) by {
            if binds_to(kv@, k, rid) {
                let j = choose|j: int| 0 <= j < rows@.len() && (#[trigger] rows@[j]).0@ == k;
                assert(!binds_to(kv@, rows@[j].0@, rid));
            }
        }
    }
    false
}

/// Reads an id loosely.
fn parse_loose_id(s: &str) -> (r: Option<Vec<u8>>)
    ensures
        match r {
            Some(v) => loose_id(s@) == Some(v@),
            None => loose_id(s@) is None,
        },
{
    let b = s.as_bytes();
    if b.len() != 32 {
        return None;
    }
    let mut out: Vec<u8> = Vec::new();
    let mut i: usize = 0;
    while i < 16
        invariant
            i <= 16,
            b@ == vstd::utf8::encode_utf8(s@),
            b@.len() == 32,
            out.len() == i,
            forall|j: int|
                0 <= j < i ==> #[trigger] out@[j] == migration::loose_pair(b@[2 * j], b@[2 * j + 1]),
        decreases 16 - i,
    {
        out.push(read_pair(b[2 * i], b[2 * i + 1]));
        i = i + 1;
    }
    assert(out@ =~= loose_id(s@)->0);
    Some(out)
}

/// Whether a snapshot lists a revision.
fn lists_revision(v: &Vec<u8>, rid: NodeRevisionId) -> (r: bool)
    ensures
        r == snapshot_lists(v@, rid),
{
    let names = match names_from_json(v) {
        Some(n) => n,
        None => {
            return false;
        },
    };
    let want = bytes16(&rid.0);
    let ghost nv = text::texts(names@);
    let mut i: usize = 0;
    while i < names.len()
        invariant
            i <= names.len(),
            want@ == rid.0@,
            nv == text::texts(names@),
            codec::names_of_json(v@) == Some(nv),
            forall|j: int| 0 <= j < i ==> loose_id(#[trigger] nv[j]) != Some(rid.0@),
        decreases names.len() - i,
    {
        assert(nv[i as int] == names@[i as int]@);
        if let Some(b) = parse_loose_id(names[i].as_str()) {
            if same_bytes(&b, &want) {
                return true;
            }
        }
        i = i + 1;
    }
    false
}

/// Whether some snapshot lists a revision.
fn snapshot_protected(kv: &MemoryKv, rid: NodeRevisionId) -> (r: bool)
    ensures
        r == in_snapshot(kv@, rid),
{
    let rows = kv.scan_prefix("ris:");
    let mut i: usize = 0;
    while i < rows.len()
        invariant
            i <= rows.len(),
            kv::scanned(kv@, "ris:"@, rows@),
            forall|j: int| 0 <= j < i ==> !snapshot_lists((#[trigger] rows@[j]).1@, rid),
        decreases rows.len() - i,
    {
        if lists_revision(&rows[i].1, rid) {
            assert(kv@.contains_pair(rows@[i as int].0@, rows@[i as int].1@));
            assert(kv@.contains_key(rows@[i as int].0@));
            return true;
        }
        i = i + 1;
    }
    proof {
        assert forall|k: Seq<char>| #[trigger]
            kv@.contains_key(k) && text::begins_with(k, "ris:"@) implies !snapshot_lists(kv@[k], rid) by {
            let j = choose|j: int| 0 <= j < rows@.len() && (#[trigger] rows@[j]).0@ == k;
            assert(!snapshot_lists(rows@[j].1@, rid));
        }
    }
    false
}

/// The graph, the store and the queues during removal, and the account so far.
pub struct GcState {
    pub g: GraphView,
    pub m: Map<Seq<char>, Seq<u8>>,
    pub chunks: Seq<[u8; 32]>,
    pub jobs: Seq<DeleteJob>,
    pub report: GcDrainReport,
}

/// Why a revision cannot be removed.
pub open spec fn delete_refused(g: GraphView, rid: NodeRevisionId) -> Option<Seq<char>> {
    match g.rev(rid) {
        None => Some("missing revision"@),
        Some(rev) => if rev.status != RevisionStatus::Tombstone {
            Some("not tombstone"@)
        } else if referenced(g, rev.branch_id, rev.identity_id) {
            Some("inbound references"@)
        } else {
            None
        },
    }
}

/// The store without the bindings to a revision and the targets set for its edges.
pub open spec fn revision_forgotten(m: Map<Seq<char>, Seq<u8>>, rid: NodeRevisionId) -> Map<
    Seq<char>,
    Seq<u8>,
> {
    m.remove_keys(Set::new(|k: Seq<char>| binds_to(m, k, rid))).remove_keys(
        Set::new(|k: Seq<char>| overrides::overrides_source(k, rid)),
    )
}

/// Takes the bindings to a revision out of the store.
fn forget_bindings(kv: &mut MemoryKv, rid: NodeRevisionId)
    ensures
        final(kv)@ == old(kv)@.remove_keys(
            Set::new(|k: Seq<char>| binds_to(old(kv)@, k, rid)),
        ),
{
    let rows = kv.scan_prefix("ri:");
    let want = bytes16(&rid.0);
    let ghost m0 = kv@;
    let mut i: usize = 0;
    while i < rows.len()
        invariant
            i <= rows.len(),
            want@ == rid.0@,
            kv::scanned(m0, "ri:"@, rows@),
            forall|k: Seq<char>| #[trigger]
                kv@.contains_key(k) ==> m0.contains_pair(k, kv@[k]),
            forall|k: Seq<char>| #[trigger]
                m0.contains_key(k) && !kv@.contains_key(k) ==> binds_to(m0, k, rid),
            forall|j: int|
                0 <= j < i && binds_to(m0, (#[trigger] rows@[j]).0@, rid) ==> !kv@.contains_key(
                    rows@[j].0@,
                ),
        decreases rows.len() - i,
    {
        assert(m0.contains_pair(rows@[i as int].0@, rows@[i as int].1@));
        if !text_begins_with(rows[i].0.as_str(), "ri:provisional:") && same_bytes(
            &rows[i].1,
            &want,
        ) {
            kv.delete(rows[i].0.as_str());
        }
        i = i + 1;
    }
    proof {
        let taken = Set::new(|k: Seq<char>| binds_to(m0, k, rid));
        assert forall|k: Seq<char>| kv@.contains_key(k) <==> m0.remove_keys(taken).contains_key(
            k,
        ) by {
            if binds_to(m0, k, rid) {
                let j = choose|j: int| 0 <= j < rows@.len() && (#[trigger] rows@[j]).0@ == k;
                assert(binds_to(m0, rows@[j].0@, rid));
            }
        }
        assert(kv@ =~= m0.remove_keys(taken));
    }
}

/// Removes a tombstone that no live revision leads to: its bindings and the targets set for its
/// edges go with it, and its chunk is put on the queue.
pub fn delete_revision(
    graph: &mut InMemoryGraph,
    kv: &mut MemoryKv,
    vector_queue: &mut VectorCleanupQueue,
    revision_id: NodeRevisionId,
) -> (r: Result<(), &'static str>)
    ensures
        match r {
            Err(e) => delete_refused(old(graph)@, revision_id) == Some(e@),
            Ok(()) => delete_refused(old(graph)@, revision_id) is None,
        },
        r is Err ==> final(graph)@ == old(graph)@ && final(kv)@ == old(kv)@ && final(vector_queue)@
            == old(vector_queue)@,
        r is Ok ==> final(graph)@ == old(graph)@.without(revision_id) && final(kv)@
            == revision_forgotten(old(kv)@, revision_id) && final(vector_queue)@ == old(
            vector_queue,
        )@.push(chunk::chunk_of(old(graph)@.rev(revision_id)->0.identity_id, revision_id)),
{
    let (identity, branch) = match graph.get_revision(revision_id) {
        None => {
            return Err("missing revision");
        },
        Some(rev) => match rev.status {
            RevisionStatus::Tombstone => (rev.identity_id, rev.branch_id),
            _ => {
                return Err("not tombstone");
            },
        },
    };
    if tombstone_needed_for_inbound_bridge(graph, branch, identity) {
        return Err("inbound references");
    }
    graph.remove_revision(revision_id);
    forget_bindings(kv, revision_id);
    delete_eto_for_source_revision(kv, revision_id);
    let cid = chunk_id(identity, revision_id);
    vector_queue.enqueue_delete(cid);
    Ok(())
}

/// One job is taken from the queue: the revision is removed, or the job goes to the end.
pub open spec fn gc_step(st: GcState) -> GcState {
    if st.jobs.len() == 0 {
        st
    } else {
        let job = st.jobs[0];
        let rid = job.revision_id;
        if delete_refused(st.g, rid) is Some {
            GcState {
                jobs: st.jobs.skip(1).push(job),
                report: GcDrainReport {
                    attempted: (st.report.attempted + 1) as usize,
                    requeued: (st.report.requeued + 1) as usize,
                    ..st.report
                },
                ..st
            }
        } else {
            GcState {
                g: st.g.without(rid),
                m: revision_forgotten(st.m, rid),
                chunks: st.chunks.push(chunk::chunk_of(st.g.rev(rid)->0.identity_id, rid)),
                jobs: st.jobs.skip(1),
                report: GcDrainReport {
                    attempted: (st.report.attempted + 1) as usize,
                    deleted_ok: (st.report.deleted_ok + 1) as usize,
                    ..st.report
                },
            }
        }
    }
}

/// So many jobs are taken from the queue.
pub open spec fn gc_steps(st: GcState, n: nat) -> GcState
    decreases n,
{
    if n == 0 {
        st
    } else {
        gc_step(gc_steps(st, (n - 1) as nat))
    }
}

/// What so many jobs come to: each is done or put last again, and work stops early only where
/// nothing is left.
proof fn lemma_gc_steps(st: GcState, n: nat)
    requires
        st.report == (GcDrainReport { attempted: 0, deleted_ok: 0, requeued: 0 }),
        n <= usize::MAX,
    ensures
        ({
            let t = gc_steps(st, n);
            &&& t.report.attempted <= n
            &&& t.report.attempted == t.report.deleted_ok + t.report.requeued
            &&& t.jobs.len() + t.report.deleted_ok == st.jobs.len()
            &&& t.chunks.len() == st.chunks.len() + t.report.deleted_ok
            &&& t.report.attempted < n ==> t.jobs.len() == 0
            &&& st.jobs.len() == 0 ==> t.report.attempted == 0
        }),
    decreases n,
{
    if n > 0 {
        lemma_gc_steps(st, (n - 1) as nat);
    }
}

/// Where no job is left, more steps change nothing.
proof fn lemma_gc_done(st: GcState, n: nat, more: nat)
    requires
        gc_steps(st, n).jobs.len() == 0,
        n <= more,
    ensures
        gc_steps(st, more) == gc_steps(st, n),
    decreases more,
{
    if n < more {
        lemma_gc_done(st, n, (more - 1) as nat);
    }
}

/// The graph once revisions became tombstones, one after the other.
pub open spec fn all_retired(g: GraphView, ids: Seq<NodeRevisionId>, now_ms: u64) -> GraphView
    decreases ids.len(),
{
    if ids.len() == 0 {
        g
    } else {
        revision_lineage::retired(
            all_retired(g, ids.drop_last(), now_ms),
            ids.last(),
            now_ms,
        )
    }
}

/// Makes tombstones of revisions.
fn retire_revisions(graph: &mut InMemoryGraph, ids: &Vec<NodeRevisionId>, now_ms: u64)
    ensures
        final(graph)@ == all_retired(old(graph)@, ids@, now_ms),
{
    let mut i: usize = 0;
    assert(ids@.take(0) =~= Seq::<NodeRevisionId>::empty());
    while i < ids.len()
        invariant
            i <= ids.len(),
            graph@ == all_retired(old(graph)@, ids@.take(i as int), now_ms),
        decreases ids.len() - i,
    {
        assert(ids@.take(i + 1).drop_last() =~= ids@.take(i as int));
        retire_revision_to_tombstone_at(graph, ids[i], now_ms);
        i = i + 1;
    }
    assert(ids@.take(ids@.len() as int) =~= ids@);
}

/// Removes tombstones.
#[derive(Debug, Clone, Copy)]
pub struct TombstoneGcWorker {
    pub retention_ms: u64,
}

impl TombstoneGcWorker {
    /// Keeps tombstones for a number of days.
    pub fn from_policy(tombstone_retention_days: u32) -> (r: Self)
        ensures
            r.retention_ms == tombstone_retention_days * 86_400_000,
    {
        TombstoneGcWorker { retention_ms: tombstone_retention_days as u64 * 86_400_000 }
    }

    /// The tombstones that nothing needs any more. Before that the revisions of `retire` become
    /// tombstones: those that were deleted while another branch was built on theirs, and whose
    /// branch has no such branch left.
    pub fn scan_eligible(
        &self,
        graph: &mut InMemoryGraph,
        kv: &MemoryKv,
        wal: &MutationLog,
        retire: &Vec<NodeRevisionId>,
        now_ms: u64,
    ) -> (r: Vec<NodeRevisionId>)
        ensures
            final(graph)@ == all_retired(old(graph)@, retire@, now_ms),
            r@ == eligible_among(
                final(graph)@,
                kv@,
                wal@,
                self.retention_ms,
                now_ms,
                final(graph)@.revisions.len(),
            ),
    {
        retire_revisions(graph, retire, now_ms);
        self.eligible_now(graph, kv, wal, now_ms)
    }

    /// The tombstones that nothing needs any more.
    fn eligible_now(
        &self,
        graph: &InMemoryGraph,
        kv: &MemoryKv,
        wal: &MutationLog,
        now_ms: u64,
    ) -> (r: Vec<NodeRevisionId>)
        ensures
            r@ == eligible_among(
                graph@,
                kv@,
                wal@,
                self.retention_ms,
                now_ms,
                graph@.revisions.len(),
            ),
    {
        let revs = graph.revisions();
        let ghost s = graph@.revisions;
        let mut out: Vec<NodeRevisionId> = Vec::new();
        let mut i: usize = 0;
        assert(s.len() == revs@.len());
        while i < revs.len()
            invariant
                i <= revs.len(),
                s == graph::revision_views(revs@),
                s == graph@.revisions,
                out@ == eligible_among(
                    graph@,
                    kv@,
                    wal@,
                    self.retention_ms,
                    now_ms,
                    i as nat,
                ),
            decreases revs.len() - i,
        {
            let rev = &revs[i];
            assert(s[i as int] == rev@);
            let tomb = match rev.status {
                RevisionStatus::Tombstone => true,
                _ => false,
            };
            let old_enough = match rev.tombstoned_at_ms {
                Some(t) => {
                    let age: u64 = if now_ms >= t {
                        now_ms - t
                    } else {
                        0
                    };
                    age >= self.retention_ms
                },
                None => true,
            };
            if tomb && old_enough && !bound_somewhere(kv, rev.revision_id) && !snapshot_protected(
                kv,
                rev.revision_id,
            ) && !wal.protects(rev.revision_id) && !tombstone_needed_for_inbound_bridge(
                graph,
                rev.branch_id,
                rev.identity_id,
            ) {
                out.push(rev.revision_id);
            }
            i = i + 1;
        }
        out
    }

    /// Puts revisions on the queue.
    pub fn enqueue_deletes(
        &self,
        ids: &Vec<NodeRevisionId>,
        queue: &mut GraphDeleteQueue,
        branch: BranchId,
    )
        ensures
            final(queue)@ == old(queue)@ + jobs_for(ids@, branch),
    {
        let ghost q0 = queue@;
        let mut i: usize = 0;
        assert(q0 + jobs_for(ids@.take(0), branch) =~= q0);
        while i < ids.len()
            invariant
                i <= ids.len(),
                q0 == old(queue)@,
                queue@ == q0 + jobs_for(ids@.take(i as int), branch),
            decreases ids.len() - i,
        {
            queue.enqueue(
                DeleteJob {
                    revision_id: ids[i],
                    branch_id: branch,
                    reason: DeleteReason::TombstoneExpired,
                },
            );
            assert(queue@ =~= q0 + jobs_for(ids@.take(i + 1), branch));
            i = i + 1;
        }
        assert(ids@.take(ids@.len() as int) =~= ids@);
    }

    /// Takes up to `max_batch` jobs from the queue.
    pub fn drain_batch(
        &self,
        graph: &mut InMemoryGraph,
        kv: &mut MemoryKv,
        vector_queue: &mut VectorCleanupQueue,
        queue: &mut GraphDeleteQueue,
        max_batch: usize,
    ) -> (r: GcDrainReport)
        ensures
            (GcState {
                g: final(graph)@,
                m: final(kv)@,
                chunks: final(vector_queue)@,
                jobs: final(queue)@,
                report: r,
            }) == gc_steps(
                GcState {
                    g: old(graph)@,
                    m: old(kv)@,
                    chunks: old(vector_queue)@,
                    jobs: old(queue)@,
                    report: GcDrainReport { attempted: 0, deleted_ok: 0, requeued: 0 },
                },
                max_batch as nat,
            ),
            r.attempted == r.deleted_ok + r.requeued,
            r.attempted <= max_batch,
            r.attempted < max_batch ==> final(queue)@.len() == 0,
            old(queue)@.len() == 0 ==> r.attempted == 0,
            final(queue)@.len() + r.deleted_ok == old(queue)@.len(),
    {
        let mut report = GcDrainReport { attempted: 0, deleted_ok: 0, requeued: 0 };
        let ghost start = GcState {
            g: graph@,
            m: kv@,
            chunks: vector_queue@,
            jobs: queue@,
            report,
        };
        let mut i: usize = 0;
        while i < max_batch
            invariant_except_break
                (GcState {
                    g: graph@,
                    m: kv@,
                    chunks: vector_queue@,
                    jobs: queue@,
                    report,
                }) == gc_steps(start, i as nat),
            invariant
                i <= max_batch,
                report.attempted <= i,
                start.report == (GcDrainReport { attempted: 0, deleted_ok: 0, requeued: 0 }),
            ensures
                (GcState {
                    g: graph@,
                    m: kv@,
                    chunks: vector_queue@,
                    jobs: queue@,
                    report,
                }) == gc_steps(start, max_batch as nat),
            decreases max_batch - i,
        {
            proof {
                lemma_gc_steps(start, i as nat);
            }
            match queue.dequeue() {
                None => {
                    proof {
                        lemma_gc_done(start, i as nat, max_batch as nat);
                    }
                    break;
                },
                Some(job) => {
                    report.attempted = report.attempted + 1;
                    match delete_revision(graph, kv, vector_queue, job.revision_id) {
                        Ok(()) => {
                            report.deleted_ok = report.deleted_ok + 1;
                        },
                        Err(_) => {
                            queue.enqueue(job);
                            report.requeued = report.requeued + 1;
                        },
                    }
                },
            }
            i = i + 1;
        }
        proof {
            lemma_gc_steps(start, max_batch as nat);
        }
        report
    }
}

/// The jobs for revisions.
pub open spec fn jobs_for(ids: Seq<NodeRevisionId>, branch: BranchId) -> Seq<DeleteJob> {
    ids.map_values(
        |rid: NodeRevisionId|
            DeleteJob {
                revision_id: rid,
                branch_id: branch,
                reason: DeleteReason::TombstoneExpired,
            },
    )
}

/// A tombstone that is chosen for removal is not refused when its turn comes, as long as the graph
/// stays as it is.
pub proof fn law_eligible_is_removable(
    g: GraphView,
    m: Map<Seq<char>, Seq<u8>>,
    log: Seq<RecordView>,
    retention_ms: u64,
    now_ms: u64,
    r: RevisionView,
)
    requires
        eligible(g, m, log, retention_ms, now_ms, r),
        g.rev(r.revision_id) == Some(r),
    ensures
        delete_refused(g, r.revision_id) is None,
{
}

/// Retiring revisions leaves the tombstones that are there as they are.
pub proof fn law_retiring_keeps_tombstones(
    g: GraphView,
    ids: Seq<NodeRevisionId>,
    now_ms: u64,
    rid: NodeRevisionId,
)
    requires
        g.rev(rid) matches Some(r) && r.status == RevisionStatus::Tombstone,
    ensures
        all_retired(g, ids, now_ms).rev(rid) == g.rev(rid),
    decreases ids.len(),
{
    if ids.len() > 0 {
        law_retiring_keeps_tombstones(g, ids.drop_last(), now_ms, rid);
        let mid = all_retired(g, ids.drop_last(), now_ms);
        seqs::lemma_first_is(mid.revisions, |x: RevisionView| x.revision_id == ids.last());
        if let Some(r) = mid.rev(ids.last()) {
            if r.status != RevisionStatus::Tombstone {
                graph::law_put_then_get(
                    mid,
                    RevisionView {
                        status: RevisionStatus::Tombstone,
                        tombstoned_at_ms: Some(now_ms),
                        ..r
                    },
                    rid,
                );
            }
        }
    }
}

/// After a revision is removed nothing is bound to it, and no target is set for its edges.
pub proof fn law_removed_revision_is_forgotten(m: Map<Seq<char>, Seq<u8>>, rid: NodeRevisionId)
    ensures
        !is_bound(revision_forgotten(m, rid), rid),
        forall|k: Seq<char>| #[trigger]
            revision_forgotten(m, rid).contains_key(k) ==> !overrides::overrides_source(k, rid),
{
    let after = revision_forgotten(m, rid);
    assert forall|k: Seq<char>| !(#[trigger] binds_to(after, k, rid)) by {
        if binds_to(after, k, rid) {
            assert(binds_to(m, k, rid));
        }
    }
}

} // verus!
