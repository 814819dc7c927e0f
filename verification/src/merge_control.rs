//! Cancelling a merge: bindings, edges, chunks and the lock go back to what they were.

use crate::chunk;
use crate::chunk::chunk_id;
use crate::graph::{GraphEdge, GraphView, InMemoryGraph};
use crate::hex;
use crate::hex::parse_hex16;
use crate::ids;
use crate::ids::{BranchId, IdentityId, MergeId, NodeRevisionId, bytes16};
use crate::keys;
use crate::keys::{revision_binding_kv_key, revision_from_bytes, tagged_rest_key};
use crate::kv;
use crate::kv::{CasError, MemoryKv};
use crate::merge_lock;
use crate::merge_lock::{merge_lock_holder, release_merge_lock};
use crate::merge_saga_batch;
use crate::merge_saga_batch::{BatchView, compensate_saga_edge_batches, load_saga_edge_batches};
use crate::saga;
use crate::saga::purge_saga_edge_payloads;
use crate::table::Table;
use crate::text;
use crate::text::{chars_of, chars_split, copy_bytes, owned, same_text, text_contains, text_of};
use crate::vector_cleanup_queue::VectorCleanupQueue;
use crate::vector_store;
use crate::vector_store::{Asked, VectorChunkStore};
use vstd::prelude::*;

verus! {

/// Why a merge could not be cancelled.
#[derive(Debug)]
pub enum MergeCancelError {
    Cas(CasError),
    /// A recorded key does not name a branch and an identity.
    BadSnapshotKey,
}

impl MergeCancelError {
    /// The message for a person.
    pub fn message(&self) -> (r: String)
        ensures
            r@ == (match self {
                MergeCancelError::Cas(e) => kv::cas_message(*e),
                MergeCancelError::BadSnapshotKey => "parse msnap key"@,
            }),
    {
        match self {
            MergeCancelError::Cas(e) => e.message(),
            MergeCancelError::BadSnapshotKey => owned("parse msnap key"),
        }
    }
}

/// What cancelling a merge did.
#[derive(Debug, Clone, Copy)]
pub struct MergeCancelReport {
    pub merge_id: MergeId,
    pub restored_bindings: usize,
    pub snapshot_keys_cleared: usize,
    pub edges_cleared_attempts: usize,
    pub vector_chunks_deleted: usize,
    /// Chunks put on the queue because the store would not delete them.
    pub vector_chunks_enqueued_dlq: usize,
}

/// `msnap:{merge}:`.
pub open spec fn snapshot_prefix(merge_id: MergeId) -> Seq<char> {
    keys::tagged_rest("msnap:"@, merge_id.0@, Seq::<char>::empty())
}

/// `msnap:{merge}:ri:{branch}:{identity}`, under which a binding from before a merge is kept.
pub open spec fn snapshot_key(merge_id: MergeId, branch: BranchId, identity: IdentityId) -> Seq<
    char,
> {
    keys::tagged_rest("msnap:"@, merge_id.0@, keys::binding_key(branch, identity))
}

/// The branch and the identity that a snapshot key names.
pub open spec fn snapshot_of(key: Seq<char>) -> Option<(BranchId, IdentityId)> {
    let p = text::pieces(key, ':');
    if p.len() == 5 && p[0] == "msnap"@ && p[2] == "ri"@ {
        match (hex::bytes_of_hex(p[3], 16), hex::bytes_of_hex(p[4], 16)) {
            (Some(b), Some(i)) => Some((BranchId(ids::array_of(b)), IdentityId(ids::array_of(i)))),
            _ => None,
        }
    } else {
        None
    }
}

/// The identity of `branch` whose binding a snapshot row holds.
pub open spec fn row_identity(row: (String, Vec<u8>), branch: BranchId) -> Option<IdentityId> {
    match snapshot_of(row.0@) {
        Some((b, i)) => if b == branch && row.1@.len() == 16 {
            Some(i)
        } else {
            None
        },
        None => None,
    }
}

/// A row that looks like a binding and names none.
pub open spec fn bad_row(row: (String, Vec<u8>)) -> bool {
    text::contains_text(row.0@, ":ri:"@) && snapshot_of(row.0@) is None
}

/// The bindings that snapshot rows hold for a branch; of two for one identity the later counts.
pub open spec fn row_bindings(rows: Seq<(String, Vec<u8>)>, branch: BranchId) -> Map<
    IdentityId,
    NodeRevisionId,
>
    decreases rows.len(),
{
    if rows.len() == 0 {
        Map::empty()
    } else {
        let front = row_bindings(rows.drop_last(), branch);
        match row_identity(rows.last(), branch) {
            Some(i) => front.insert(i, NodeRevisionId(ids::array_of(rows.last().1@))),
            None => front,
        }
    }
}

/// The store with the bindings that snapshot rows hold for a branch.
pub open spec fn restored(
    m: Map<Seq<char>, Seq<u8>>,
    rows: Seq<(String, Vec<u8>)>,
    branch: BranchId,
) -> Map<Seq<char>, Seq<u8>>
    decreases rows.len(),
{
    if rows.len() == 0 {
        m
    } else {
        let front = restored(m, rows.drop_last(), branch);
        match row_identity(rows.last(), branch) {
            Some(i) if text::contains_text(rows.last().0@, ":ri:"@) => front.insert(
                keys::binding_key(branch, i),
                rows.last().1@,
            ),
            _ => front,
        }
    }
}

/// How many snapshot rows are restored for a branch.
pub open spec fn restored_count(rows: Seq<(String, Vec<u8>)>, branch: BranchId) -> nat
    decreases rows.len(),
{
    if rows.len() == 0 {
        0
    } else {
        let front = restored_count(rows.drop_last(), branch);
        if row_identity(rows.last(), branch) is Some && text::contains_text(rows.last().0@, ":ri:"@) {
            front + 1
        } else {
            front
        }
    }
}

/// Snapshot keys are read as they were written, and hold the mark of a binding.
pub proof fn lemma_snapshot_key(merge_id: MergeId, branch: BranchId, identity: IdentityId)
    ensures
        snapshot_of(snapshot_key(merge_id, branch, identity)) == Some((branch, identity)),
        text::contains_text(snapshot_key(merge_id, branch, identity), ":ri:"@),
        text::begins_with(snapshot_key(merge_id, branch, identity), snapshot_prefix(merge_id)),
{
    let key = snapshot_key(merge_id, branch, identity);
    let h0 = hex::hex_of(merge_id.0@);
    let h1 = hex::hex_of(branch.0@);
    let h2 = hex::hex_of(identity.0@);
    reveal_strlit("msnap");
    reveal_strlit("msnap:");
    reveal_strlit("ri");
    reveal_strlit("ri:");
    reveal_strlit(":ri:");
    let r3 = h1 + seq![':'] + h2;
    let r2 = "ri"@ + seq![':'] + r3;
    let r1 = h0 + seq![':'] + r2;
    assert(key =~= "msnap"@ + seq![':'] + r1);
    hex::lemma_hex_has_no_colon(merge_id.0@);
    hex::lemma_hex_has_no_colon(branch.0@);
    hex::lemma_hex_has_no_colon(identity.0@);
    text::lemma_pieces_of_joined("msnap"@, ':', r1);
    text::lemma_pieces_of_joined(h0, ':', r2);
    text::lemma_pieces_of_joined("ri"@, ':', r3);
    text::lemma_pieces_of_joined(h1, ':', h2);
    text::lemma_pieces_of_whole(h2, ':');
    assert(text::pieces(key, ':') =~= seq!["msnap"@, h0, "ri"@, h1, h2]);
    hex::lemma_hex_reads_back(branch.0@);
    hex::lemma_hex_reads_back(identity.0@);
    ids::lemma_array_of(branch.0);
    ids::lemma_array_of(identity.0);
    assert(text::occurs_at(key, ":ri:"@, 38)) by {
        assert(key.subrange(38, 42) =~= ":ri:"@);
    }
    keys::lemma_tagged_rest_injective(
        "msnap:"@,
        merge_id.0,
        keys::binding_key(branch, identity),
        merge_id.0,
        Seq::<char>::empty(),
    );
}

/// Builds `msnap:{merge}:`.
fn msnap_prefix(merge_id: MergeId) -> (r: String)
    ensures
        r@ == snapshot_prefix(merge_id),
{
    proof {
        reveal_strlit("");
        assert(""@ =~= Seq::<char>::empty());
    }
    tagged_rest_key("msnap:", &merge_id.0, "")
}

/// Builds `msnap:{merge}:ri:{branch}:{identity}`.
fn msnap_key(merge_id: MergeId, branch_id: BranchId, identity_id: IdentityId) -> (r: String)
    ensures
        r@ == snapshot_key(merge_id, branch_id, identity_id),
{
    tagged_rest_key(
        "msnap:",
        &merge_id.0,
        revision_binding_kv_key(branch_id, identity_id).as_str(),
    )
}

/// Reads the branch and the identity that a snapshot key names.
fn parse_msnap_ri_key(key: &str) -> (r: Option<(BranchId, IdentityId)>)
    ensures
        r == snapshot_of(key@),
{
    let p = chars_split(&chars_of(key), ':');
    let ghost pv = text::pieces(key@, ':');
    assert(pv.len() == p.len());
    if p.len() != 5 {
        return None;
    }
    assert(pv[0] == p[0]@ && pv[2] == p[2]@ && pv[3] == p[3]@ && pv[4] == p[4]@);
    if !same_text(text_of(&p[0]).as_str(), "msnap") || !same_text(text_of(&p[2]).as_str(), "ri") {
        return None;
    }
    match (parse_hex16(text_of(&p[3]).as_str()), parse_hex16(text_of(&p[4]).as_str())) {
        (Some(b), Some(i)) => {
            proof {
                ids::lemma_array_of(b);
                ids::lemma_array_of(i);
            }
            Some((BranchId(b), IdentityId(i)))
        },
        _ => None,
    }
}

/// Reads the bindings of a branch from before a merge.
pub fn load_msnap_bindings(kv: &MemoryKv, merge_id: MergeId, branch_id: BranchId) -> (r: Table<
    IdentityId,
    NodeRevisionId,
>)
    ensures
        exists|rows: Seq<(String, Vec<u8>)>| #[trigger]
            kv::scanned(kv@, snapshot_prefix(merge_id), rows) && r@ == row_bindings(rows, branch_id),
{
    let rows = kv.scan_prefix(msnap_prefix(merge_id).as_str());
    let mut out: Table<IdentityId, NodeRevisionId> = Table::new();
    let mut i: usize = 0;
    assert(rows@.take(0) =~= Seq::<(String, Vec<u8>)>::empty());
    while i < rows.len()
        invariant
            i <= rows.len(),
            out@ == row_bindings(rows@.take(i as int), branch_id),
        decreases rows.len() - i,
    {
        proof {
            assert(rows@.take(i + 1).drop_last() =~= rows@.take(i as int));
            assert(rows@.take(i + 1).last() == rows@[i as int]);
        }
        if let Some((b, ident)) = parse_msnap_ri_key(rows[i].0.as_str()) {
            if b == branch_id {
                if let Some(rev) = revision_from_bytes(&rows[i].1) {
                    out.insert(ident, rev);
                }
            }
        }
        i = i + 1;
    }
    assert(rows@.take(rows@.len() as int) =~= rows@);
    out
}

/// The store with bindings recorded for a merge.
pub open spec fn premerge_recorded(
    m: Map<Seq<char>, Seq<u8>>,
    merge_id: MergeId,
    branch: BranchId,
    bindings: Seq<(IdentityId, NodeRevisionId)>,
) -> Map<Seq<char>, Seq<u8>>
    decreases bindings.len(),
{
    if bindings.len() == 0 {
        m
    } else {
        premerge_recorded(m, merge_id, branch, bindings.drop_last()).insert(
            snapshot_key(merge_id, branch, bindings.last().0),
            bindings.last().1.0@,
        )
    }
}

/// What became of the chunks of dropped revisions.
pub struct ChunkCleanup {
    /// The chunks that are still there.
    pub left: Set<[u8; 32]>,
    /// The chunks that the store would not delete.
    pub refused: Seq<[u8; 32]>,
    /// How many chunks were deleted.
    pub deleted: nat,
    /// The deletes that were asked of the store, in order.
    pub asked: Seq<Asked>,
}

/// Deletes the chunks of revisions one by one, as far as they are there; `told` is what the deletes
/// come to.
pub open spec fn chunks_cleaned(
    g: GraphView,
    chunks: Set<[u8; 32]>,
    told: Seq<bool>,
    revisions: Seq<NodeRevisionId>,
) -> ChunkCleanup
    decreases revisions.len(),
{
    if revisions.len() == 0 {
        ChunkCleanup { left: chunks, refused: Seq::empty(), deleted: 0, asked: Seq::empty() }
    } else {
        let front = chunks_cleaned(g, chunks, told, revisions.drop_last());
        match g.rev(revisions.last()) {
            Some(rev) => {
                let c = chunk::chunk_of(rev.identity_id, revisions.last());
                let done = told[front.asked.len() as int];
                if !front.left.contains(c) {
                    front
                } else if done {
                    ChunkCleanup {
                        left: front.left.remove(c),
                        deleted: front.deleted + 1,
                        asked: front.asked.push((c, true)),
                        ..front
                    }
                } else {
                    ChunkCleanup {
                        refused: front.refused.push(c),
                        asked: front.asked.push((c, false)),
                        ..front
                    }
                }
            },
            None => front,
        }
    }
}

/// What becomes of the chunks rests on as many answers as there are deletes.
proof fn lemma_cleaned_by_answers(
    g: GraphView,
    chunks: Set<[u8; 32]>,
    a: Seq<bool>,
    b: Seq<bool>,
    revisions: Seq<NodeRevisionId>,
)
    requires
        chunks_cleaned(g, chunks, a, revisions).asked.len() <= a.len(),
        a.len() <= b.len(),
        a == b.take(a.len() as int),
    ensures
        chunks_cleaned(g, chunks, b, revisions) == chunks_cleaned(g, chunks, a, revisions),
    decreases revisions.len(),
{
    if revisions.len() > 0 {
        let front = chunks_cleaned(g, chunks, a, revisions.drop_last());
        lemma_cleaned_by_answers(g, chunks, a, b, revisions.drop_last());
        if front.asked.len() < a.len() {
            assert(a[front.asked.len() as int] == b[front.asked.len() as int]);
        }
    }
}

/// A graph in which the given revisions have no edges.
pub open spec fn edges_dropped(g: GraphView, revisions: Seq<NodeRevisionId>) -> GraphView
    decreases revisions.len(),
{
    if revisions.len() == 0 {
        g
    } else {
        let front = edges_dropped(g, revisions.drop_last());
        if front.rev(revisions.last()) is Some {
            front.with_edges(revisions.last(), Seq::empty())
        } else {
            front
        }
    }
}

/// Dropping edges leaves the revisions as they are.
proof fn lemma_edges_dropped_keeps_revisions(g: GraphView, revisions: Seq<NodeRevisionId>)
    ensures
        edges_dropped(g, revisions).revisions == g.revisions,
    decreases revisions.len(),
{
    if revisions.len() > 0 {
        lemma_edges_dropped_keeps_revisions(g, revisions.drop_last());
    }
}

/// The deleted chunks are no more than the revisions, and so are the refused.
proof fn lemma_cleanup_bounds(
    g: GraphView,
    chunks: Set<[u8; 32]>,
    told: Seq<bool>,
    revisions: Seq<NodeRevisionId>,
)
    ensures
        chunks_cleaned(g, chunks, told, revisions).deleted <= revisions.len(),
        chunks_cleaned(g, chunks, told, revisions).refused.len() <= revisions.len(),
    decreases revisions.len(),
{
    if revisions.len() > 0 {
        lemma_cleanup_bounds(g, chunks, told, revisions.drop_last());
    }
}

/// The store once a merge's snapshot is gone and its lock on a branch is given back.
pub open spec fn snapshot_closed(
    m: Map<Seq<char>, Seq<u8>>,
    merge_id: MergeId,
    branch: BranchId,
) -> Map<Seq<char>, Seq<u8>> {
    let cleared = kv::without_prefix(m, snapshot_prefix(merge_id));
    if merge_lock::lock_holder(cleared, branch) == Some(merge_id) {
        merge_lock::lock_released(cleared, branch, merge_id)
    } else {
        cleared
    }
}

/// The store that cancelling works on: without the merge's edge batches.
pub open spec fn batches_purged(m: Map<Seq<char>, Seq<u8>>, merge_id: MergeId) -> Map<
    Seq<char>,
    Seq<u8>,
> {
    kv::without_prefix(m, saga::payload_prefix(merge_id))
}

/// Some key of a merge's snapshot looks like a binding and names none.
pub open spec fn snapshot_broken(m: Map<Seq<char>, Seq<u8>>, merge_id: MergeId) -> bool {
    exists|k: Seq<char>| #[trigger]
        m.contains_key(k) && text::begins_with(k, snapshot_prefix(merge_id)) && text::contains_text(k, ":ri:"@)
            && snapshot_of(k) is None
}

/// Cancelling a merge on a branch leads from one store and graph to another. Where a key is broken
/// it stops before that key.
pub open spec fn cancelled(
    m: Map<Seq<char>, Seq<u8>>,
    g: GraphView,
    merge_id: MergeId,
    branch: BranchId,
    revisions: Seq<NodeRevisionId>,
    m_after: Map<Seq<char>, Seq<u8>>,
    g_after: GraphView,
) -> bool {
    let purged = batches_purged(m, merge_id);
    let ok = !snapshot_broken(purged, merge_id);
    &&& exists|batches: Seq<BatchView>| #[trigger]
        merge_saga_batch::batches_on_record(m, merge_id, batches) && g_after == (if ok {
            edges_dropped(merge_saga_batch::compensated(g, batches), revisions)
        } else {
            merge_saga_batch::compensated(g, batches)
        })
    &&& exists|rows: Seq<(String, Vec<u8>)>| #[trigger]
        kv::scanned(purged, snapshot_prefix(merge_id), rows) && (if ok {
            m_after == snapshot_closed(restored(purged, rows, branch), merge_id, branch)
        } else {
            exists|at: int|
                0 <= at < rows.len() && bad_row(rows[at]) && m_after == #[trigger] restored(
                    purged,
                    rows.take(at),
                    branch,
                )
        })
}

/// Restores what a merge changed.
#[derive(Debug)]
pub struct MergeControl;

impl MergeControl {
    pub fn new() -> (r: Self)
        ensures
            r == MergeControl,
    {
        MergeControl
    }

    /// Keeps a branch's bindings from before a merge.
    pub fn record_premerge_bindings(
        &self,
        kv: &mut MemoryKv,
        merge_id: MergeId,
        branch_id: BranchId,
        bindings: &Vec<(IdentityId, NodeRevisionId)>,
    )
        ensures
            final(kv)@ == premerge_recorded(old(kv)@, merge_id, branch_id, bindings@),
    {
        let mut i: usize = 0;
        assert(bindings@.take(0) =~= Seq::<(IdentityId, NodeRevisionId)>::empty());
        while i < bindings.len()
            invariant
                i <= bindings.len(),
                kv@ == premerge_recorded(old(kv)@, merge_id, branch_id, bindings@.take(i as int)),
            decreases bindings.len() - i,
        {
            proof {
                assert(bindings@.take(i + 1).drop_last() =~= bindings@.take(i as int));
            }
            let (id, rev) = bindings[i];
            kv.set(msnap_key(merge_id, branch_id, id).as_str(), bytes16(&rev.0));
            i = i + 1;
        }
        assert(bindings@.take(bindings@.len() as int) =~= bindings@);
    }

    /// Puts the recorded bindings of a branch back; stops at a key that names none.
    fn restore_bindings(
        &self,
        kv: &mut MemoryKv,
        branch_id: BranchId,
        rows: &Vec<(String, Vec<u8>)>,
    ) -> (r: Result<usize, usize>)
        ensures
            match r {
                Ok(n) => n == restored_count(rows@, branch_id) && final(kv)@ == restored(
                    old(kv)@,
                    rows@,
                    branch_id,
                ) && forall|i: int| 0 <= i < rows@.len() ==> !bad_row(#[trigger] rows@[i]),
                Err(at) => at < rows@.len() && bad_row(rows@[at as int]) && final(kv)@ == restored(
                    old(kv)@,
                    rows@.take(at as int),
                    branch_id,
                ),
            },
    {
        let mut n: usize = 0;
        let mut i: usize = 0;
        assert(rows@.take(0) =~= Seq::<(String, Vec<u8>)>::empty());
        while i < rows.len()
            invariant
                i <= rows.len(),
                n <= i,
                n == restored_count(rows@.take(i as int), branch_id),
                kv@ == restored(old(kv)@, rows@.take(i as int), branch_id),
                forall|j: int| 0 <= j < i ==> !bad_row(#[trigger] rows@[j]),
            decreases rows.len() - i,
        {
            proof {
                assert(rows@.take(i + 1).drop_last() =~= rows@.take(i as int));
                assert(rows@.take(i + 1).last() == rows@[i as int]);
            }
            if text_contains(rows[i].0.as_str(), ":ri:") {
                match parse_msnap_ri_key(rows[i].0.as_str()) {
                    Some((b, ident)) => {
                        if b == branch_id && rows[i].1.len() == 16 {
                            kv.set(
                                revision_binding_kv_key(branch_id, ident).as_str(),
                                copy_bytes(&rows[i].1),
                            );
                            n = n + 1;
                        }
                    },
                    None => {
                        return Err(i);
                    },
                }
            }
            i = i + 1;
        }
        assert(rows@.take(rows@.len() as int) =~= rows@);
        Ok(n)
    }

    /// Undoes a merge on a branch: its edge batches are undone, the recorded bindings are put
    /// back, the given revisions lose their edges and their chunks, the snapshot goes, and the
    /// branch is unlocked if the merge holds it. A chunk that the store will not delete goes on the
    /// queue, if there is one.
    pub fn cancel_merge<S: VectorChunkStore>(
        &self,
        kv: &mut MemoryKv,
        merge_id: MergeId,
        branch_id: BranchId,
        graph: &mut InMemoryGraph,
        vector: &mut S,
        vector_dlq: Option<&mut VectorCleanupQueue>,
        clear_edges_for: &Vec<NodeRevisionId>,
    ) -> (r: Result<MergeCancelReport, MergeCancelError>)
        ensures
            r is Err ==> r == Err::<MergeCancelReport, MergeCancelError>(
                MergeCancelError::BadSnapshotKey,
            ),
            r is Err <==> snapshot_broken(batches_purged(old(kv)@, merge_id), merge_id),
            cancelled(
                old(kv)@,
                old(graph)@,
                merge_id,
                branch_id,
                clear_edges_for@,
                final(kv)@,
                final(graph)@,
            ),
            exists|batches: Seq<BatchView>| #[trigger]
                merge_saga_batch::batches_on_record(old(kv)@, merge_id, batches) && final(graph)@ == (if r is Ok {
                    edges_dropped(merge_saga_batch::compensated(old(graph)@, batches), clear_edges_for@)
                } else {
                    merge_saga_batch::compensated(old(graph)@, batches)
                }),
            exists|rows: Seq<(String, Vec<u8>)>| #[trigger]
                kv::scanned(batches_purged(old(kv)@, merge_id), snapshot_prefix(merge_id), rows)
                    && match r {
                    Ok(report) => final(kv)@ == snapshot_closed(
                        restored(batches_purged(old(kv)@, merge_id), rows, branch_id),
                        merge_id,
                        branch_id,
                    ) && report.restored_bindings == restored_count(rows, branch_id)
                        && report.snapshot_keys_cleared == rows.len(),
                    Err(_) => exists|at: int|
                        0 <= at < rows.len() && bad_row(rows[at]) && final(kv)@
                            == #[trigger] restored(
                            batches_purged(old(kv)@, merge_id),
                            rows.take(at),
                            branch_id,
                        ),
                },
            r is Err ==> final(vector).chunks() == old(vector).chunks() && final(vector).asked()
                == old(vector).asked(),
            r is Err ==> (vector_dlq matches Some(q) ==> final(q)@ == q@),
            r matches Ok(report) ==> {
                let told = vector_store::answers_since(final(vector).asked(), old(vector).asked());
                let cleaned = chunks_cleaned(
                    final(graph)@,
                    old(vector).chunks(),
                    told,
                    clear_edges_for@,
                );
                &&& final(vector).chunks() == cleaned.left
                &&& final(vector).asked() == old(vector).asked() + cleaned.asked
                &&& answered(*old(vector), cleaned.asked)
                &&& vector_dlq matches Some(q) ==> final(q)@ == q@ + cleaned.refused
                &&& report.merge_id == merge_id
                &&& report.edges_cleared_attempts == clear_edges_for@.len()
                &&& report.vector_chunks_deleted == cleaned.deleted
                &&& report.vector_chunks_enqueued_dlq == (if vector_dlq is Some {
                    cleaned.refused.len()
                } else {
                    0
                })
            },
    {
        let batches = load_saga_edge_batches(kv, merge_id);
        compensate_saga_edge_batches(graph, &batches);
        purge_saga_edge_payloads(kv, merge_id);
        let ghost m1 = kv@;
        let ghost g1 = graph@;
        let ghost prefix = snapshot_prefix(merge_id);
        let rows = kv.scan_prefix(msnap_prefix(merge_id).as_str());
        let restored_bindings = match self.restore_bindings(kv, branch_id, &rows) {
            Ok(n) => n,
            Err(at) => {
                proof {
                    let m = batches_purged(old(kv)@, merge_id);
                    assert(m == m1);
                    assert(m.contains_key(rows@[at as int].0@));
                    assert(kv@ == restored(m, rows@.take(at as int), branch_id));
                }
                return Err(MergeCancelError::BadSnapshotKey);
            },
        };
        proof {
            assert forall|k: Seq<char>| #[trigger]
                m1.contains_key(k) && text::begins_with(k, prefix) && text::contains_text(
                    k,
                    ":ri:"@,
                ) implies snapshot_of(k) is Some by {
                let i = choose|i: int| 0 <= i < rows.len() && (#[trigger] rows@[i]).0@ == k;
                assert(!bad_row(rows@[i]));
            }
        }
        let ghost m2 = kv@;
        let cleared = clear_edges(graph, clear_edges_for);
        let (deleted, refused) = clean_chunks(graph, vector, clear_edges_for);
        let mut enqueued: usize = 0;
        if let Some(q) = vector_dlq {
            let ghost q0 = q@;
            let mut i: usize = 0;
            while i < refused.len()
                invariant
                    i <= refused.len(),
                    q@ == q0 + refused@.take(i as int),
                decreases refused.len() - i,
            {
                q.enqueue_delete(refused[i]);
                assert(q0 + refused@.take(i + 1) =~= (q0 + refused@.take(i as int)).push(
                    refused@[i as int],
                ));
                i = i + 1;
            }
            assert(refused@.take(refused@.len() as int) =~= refused@);
            enqueued = refused.len();
        }
        drop_rows(kv, &rows);
        proof {
            lemma_restored_rows(m1, rows@, branch_id, prefix, merge_id);
            assert(kv@ =~= kv::without_prefix(m2, prefix));
        }
        if let Some(holder) = merge_lock_holder(kv, branch_id) {
            if holder == merge_id {
                proof {
                    saga::lemma_holder_bytes(kv@, branch_id, merge_id);
                }
                match release_merge_lock(kv, branch_id, merge_id) {
                    Ok(()) => {},
                    Err(e) => {
                        return Err(MergeCancelError::Cas(e));
                    },
                }
            }
        }
        proof {
            let m = batches_purged(old(kv)@, merge_id);
            assert(m == m1);
            assert(kv::scanned(m, snapshot_prefix(merge_id), rows@));
            assert(m2 == restored(m, rows@, branch_id));
            assert(kv@ == snapshot_closed(m2, merge_id, branch_id));
        }
        Ok(
            MergeCancelReport {
                merge_id,
                restored_bindings,
                snapshot_keys_cleared: rows.len(),
                edges_cleared_attempts: cleared,
                vector_chunks_deleted: deleted,
                vector_chunks_enqueued_dlq: enqueued,
            },
        )
    }
}

/// Takes the edges of revisions away; how many revisions were tried.
fn clear_edges(graph: &mut InMemoryGraph, revisions: &Vec<NodeRevisionId>) -> (n: usize)
    ensures
        final(graph)@ == edges_dropped(old(graph)@, revisions@),
        n == revisions@.len(),
{
    let mut i: usize = 0;
    assert(revisions@.take(0) =~= Seq::<NodeRevisionId>::empty());
    while i < revisions.len()
        invariant
            i <= revisions.len(),
            graph@ == edges_dropped(old(graph)@, revisions@.take(i as int)),
        decreases revisions.len() - i,
    {
        proof {
            assert(revisions@.take(i + 1).drop_last() =~= revisions@.take(i as int));
        }
        let none: Vec<GraphEdge> = Vec::new();
        assert(none@ =~= Seq::<GraphEdge>::empty());
        let _ = graph.replace_edges_for_revision(revisions[i], none);
        i = i + 1;
    }
    assert(revisions@.take(revisions@.len() as int) =~= revisions@);
    i
}

/// Deletes the chunks of revisions; how many went, and which the store would not delete.
fn clean_chunks<S: VectorChunkStore>(
    graph: &InMemoryGraph,
    vector: &mut S,
    revisions: &Vec<NodeRevisionId>,
) -> (r: (usize, Vec<[u8; 32]>))
    ensures
        ({
            let told = vector_store::answers_since(final(vector).asked(), old(vector).asked());
            let c = chunks_cleaned(graph@, old(vector).chunks(), told, revisions@);
            &&& final(vector).chunks() == c.left
            &&& r.0 == c.deleted
            &&& r.1@ == c.refused
            &&& final(vector).asked() == old(vector).asked() + c.asked
            &&& answered(*old(vector), c.asked)
        }),
{
    let mut deleted: usize = 0;
    let mut refused: Vec<[u8; 32]> = Vec::new();
    let mut i: usize = 0;
    let ghost chunks = vector.chunks();
    let ghost a0 = vector.asked();
    let ghost mut told: Seq<bool> = Seq::empty();
    let ghost mut asked: Seq<Asked> = Seq::empty();
    proof {
        assert(revisions@.take(0) =~= Seq::<NodeRevisionId>::empty());
        assert(a0 + asked =~= a0);
        assert(asked.map_values(|a: Asked| a.1) =~= told);
    }
    while i < revisions.len()
        invariant
            i <= revisions.len(),
            deleted <= i,
            a0 == old(vector).asked(),
            vector.asked() == a0 + asked,
            told == asked.map_values(|a: Asked| a.1),
            answered(*old(vector), asked),
            forall|c: [u8; 32], done: bool| #[trigger]
                vector.answers(c, done) ==> old(vector).answers(c, done),
            ({
                let c = chunks_cleaned(graph@, chunks, told, revisions@.take(i as int));
                vector.chunks() == c.left && deleted == c.deleted && refused@ == c.refused && asked
                    == c.asked
            }),
        decreases revisions.len() - i,
    {
        let ghost seen = revisions@.take(i as int);
        proof {
            assert(revisions@.take(i + 1).drop_last() =~= seen);
            assert(revisions@.take(i + 1).last() == revisions@[i as int]);
        }
        let rid = revisions[i];
        if let Some(rev) = graph.get_revision(rid) {
            let cid = chunk_id(rev.identity_id, rid);
            if vector.has_chunk(&cid) {
                let out = vector.delete_chunk(&cid);
                proof {
                    let before = told;
                    let was = asked;
                    told = told.push(out is Ok);
                    asked = asked.push((cid, out is Ok));
                    assert(told.take(before.len() as int) =~= before);
                    lemma_cleaned_by_answers(graph@, chunks, before, told, seen);
                    assert(asked.map_values(|a: Asked| a.1) =~= told);
                    assert(a0 + asked =~= (a0 + was).push((cid, out is Ok)));
                    assert forall|k: int| 0 <= k < asked.len() implies old(vector).answers(
                        (#[trigger] asked[k]).0,
                        asked[k].1,
                    ) by {
                        if k < was.len() {
                            assert(asked[k] == was[k]);
                        }
                    }
                }
                match out {
                    Ok(()) => {
                        deleted = deleted + 1;
                    },
                    Err(_) => {
                        refused.push(cid);
                    },
                }
            }
        }
        i = i + 1;
    }
    proof {
        assert(revisions@.take(revisions@.len() as int) =~= revisions@);
        assert((a0 + asked).skip(a0.len() as int) =~= asked);
    }
    (deleted, refused)
}

/// A store may have come to these answers.
pub open spec fn answered<S: VectorChunkStore>(store: S, asked: Seq<Asked>) -> bool {
    forall|i: int| 0 <= i < asked.len() ==> store.answers((#[trigger] asked[i]).0, asked[i].1)
}

/// Takes the keys of rows out of the store.
fn drop_rows(kv: &mut MemoryKv, rows: &Vec<(String, Vec<u8>)>)
    ensures
        final(kv)@ == old(kv)@.remove_keys(
            Set::new(|k: Seq<char>| exists|i: int| 0 <= i < rows@.len() && (#[trigger] rows@[i]).0@ == k),
        ),
{
    let mut i: usize = 0;
    let ghost m0 = kv@;
    assert(kv@ =~= m0.remove_keys(
        Set::new(|k: Seq<char>| exists|j: int| 0 <= j < 0 && (#[trigger] rows@[j]).0@ == k),
    ));
    while i < rows.len()
        invariant
            i <= rows.len(),
            m0 == old(kv)@,
            kv@ == m0.remove_keys(
                Set::new(|k: Seq<char>| exists|j: int| 0 <= j < i && (#[trigger] rows@[j]).0@ == k),
            ),
        decreases rows.len() - i,
    {
        let ghost before = kv@;
        kv.delete(rows[i].0.as_str());
        proof {
            let after = m0.remove_keys(
                Set::new(|k: Seq<char>| exists|j: int| 0 <= j < i + 1 && (#[trigger] rows@[j]).0@ == k),
            );
            assert forall|k: Seq<char>| before.remove(rows@[i as int].0@).contains_key(k)
                == after.contains_key(k) by {
                if m0.contains_key(k) && (exists|j: int| 0 <= j < i + 1 && (#[trigger] rows@[j]).0@ == k) {
                    let j = choose|j: int| 0 <= j < i + 1 && (#[trigger] rows@[j]).0@ == k;
                    if j < i {
                        assert(!before.contains_key(k));
                    }
                }
            }
            assert(kv@ =~= after);
        }
        i = i + 1;
    }
}

/// A binding key is no snapshot key.
proof fn lemma_binding_is_no_snapshot(branch: BranchId, i: IdentityId, merge_id: MergeId)
    ensures
        !text::begins_with(keys::binding_key(branch, i), snapshot_prefix(merge_id)),
{
    reveal_strlit("ri:");
    reveal_strlit("msnap:");
    let key = keys::binding_key(branch, i);
    let p = snapshot_prefix(merge_id);
    keys::lemma_binding_key_injective(branch, i, branch, i);
    if text::begins_with(key, p) {
        keys::lemma_prefixes_differ(key, keys::binding_prefix(branch), key, p, 0);
    }
}

/// Restoring bindings leaves the snapshot's keys as they are.
proof fn lemma_restored_rows(
    m: Map<Seq<char>, Seq<u8>>,
    rows: Seq<(String, Vec<u8>)>,
    branch: BranchId,
    prefix: Seq<char>,
    merge_id: MergeId,
)
    requires
        prefix == snapshot_prefix(merge_id),
    ensures
        forall|k: Seq<char>|
            text::begins_with(k, prefix) ==> (#[trigger] restored(m, rows, branch).contains_key(k)
                <==> m.contains_key(k)),
    decreases rows.len(),
{
    if rows.len() > 0 {
        lemma_restored_rows(m, rows.drop_last(), branch, prefix, merge_id);
        if let Some(i) = row_identity(rows.last(), branch) {
            lemma_binding_is_no_snapshot(branch, i, merge_id);
        }
        let front = restored(m, rows.drop_last(), branch);
        assert forall|k: Seq<char>| text::begins_with(k, prefix) implies (
        #[trigger] restored(m, rows, branch).contains_key(k) <==> m.contains_key(k)) by {
            assert(front.contains_key(k) <==> m.contains_key(k));
        }
    }
}

/// Every key of a merge's snapshot names the branch and the identity it was recorded for.
pub open spec fn snapshot_clean(m: Map<Seq<char>, Seq<u8>>, merge_id: MergeId) -> bool {
    forall|k: Seq<char>| #[trigger]
        m.contains_key(k) && text::begins_with(k, snapshot_prefix(merge_id)) ==> exists|
            b: BranchId,
            i: IdentityId,
        |
            k == #[trigger] snapshot_key(merge_id, b, i)
}

/// Recording bindings keeps a snapshot clean, and each binding is there (the last of several).
pub proof fn law_recorded_snapshot_is_clean(
    m: Map<Seq<char>, Seq<u8>>,
    merge_id: MergeId,
    branch: BranchId,
    bindings: Seq<(IdentityId, NodeRevisionId)>,
)
    requires
        snapshot_clean(m, merge_id),
    ensures
        snapshot_clean(premerge_recorded(m, merge_id, branch, bindings), merge_id),
        bindings.len() > 0 ==> kv::value_at(
            premerge_recorded(m, merge_id, branch, bindings),
            snapshot_key(merge_id, branch, bindings.last().0),
        ) == Some(bindings.last().1.0@),
    decreases bindings.len(),
{
    if bindings.len() > 0 {
        law_recorded_snapshot_is_clean(m, merge_id, branch, bindings.drop_last());
        let front = premerge_recorded(m, merge_id, branch, bindings.drop_last());
        let all = premerge_recorded(m, merge_id, branch, bindings);
        assert forall|k: Seq<char>| #[trigger]
            all.contains_key(k) && text::begins_with(k, snapshot_prefix(merge_id)) implies exists|
            b: BranchId,
            i: IdentityId,
        |
            k == #[trigger] snapshot_key(merge_id, b, i) by {
            if k == snapshot_key(merge_id, branch, bindings.last().0) {
            } else {
                assert(front.contains_key(k));
            }
        }
    }
}

/// After the recorded bindings are put back, each identity that was recorded for the branch is
/// bound to the revision that was recorded.
pub proof fn law_restored_bindings(
    m: Map<Seq<char>, Seq<u8>>,
    rows: Seq<(String, Vec<u8>)>,
    merge_id: MergeId,
    branch: BranchId,
    identity: IdentityId,
    revision: NodeRevisionId,
)
    requires
        snapshot_clean(m, merge_id),
        kv::scanned(m, snapshot_prefix(merge_id), rows),
        kv::value_at(m, snapshot_key(merge_id, branch, identity)) == Some(revision.0@),
    ensures
        keys::bound(restored(m, rows, branch), branch, identity) == Some(revision),
{
    let key = snapshot_key(merge_id, branch, identity);
    lemma_snapshot_key(merge_id, branch, identity);
    let at = choose|i: int| 0 <= i < rows.len() && (#[trigger] rows[i]).0@ == key;
    assert(rows.take(rows.len() as int) =~= rows);
    lemma_restored_from(m, rows, rows, merge_id, branch, identity, revision, at);
    ids::lemma_array_of(revision.0);
}

/// Once a merge is cancelled on a branch, what was recorded is bound again, the merge holds no
/// lock on the branch, and nothing of its snapshot is left.
pub proof fn law_cancelled_merge(
    m: Map<Seq<char>, Seq<u8>>,
    rows: Seq<(String, Vec<u8>)>,
    merge_id: MergeId,
    branch: BranchId,
    identity: IdentityId,
    revision: NodeRevisionId,
)
    requires
        snapshot_clean(m, merge_id),
        kv::scanned(m, snapshot_prefix(merge_id), rows),
        kv::value_at(m, snapshot_key(merge_id, branch, identity)) == Some(revision.0@),
    ensures
        ({
            let after = snapshot_closed(restored(m, rows, branch), merge_id, branch);
            &&& keys::bound(after, branch, identity) == Some(revision)
            &&& merge_lock::lock_holder(after, branch) != Some(merge_id)
            &&& forall|k: Seq<char>| #[trigger]
                after.contains_key(k) ==> !text::begins_with(k, snapshot_prefix(merge_id))
        }),
{
    law_restored_bindings(m, rows, merge_id, branch, identity, revision);
    lemma_binding_is_no_snapshot(branch, identity, merge_id);
    let after = snapshot_closed(restored(m, rows, branch), merge_id, branch);
    let key = keys::binding_key(branch, identity);
    reveal_strlit("ri:");
    reveal_strlit("merge_lock:");
    reveal_strlit("merge_started:");
    keys::lemma_binding_key_injective(branch, identity, branch, identity);
    keys::lemma_tagged_injective("merge_lock:"@, branch.0, branch.0);
    keys::lemma_tagged_injective("merge_started:"@, merge_id.0, merge_id.0);
    keys::lemma_prefixes_differ(
        key,
        keys::binding_prefix(branch),
        merge_lock::lock_key(branch),
        "merge_lock:"@,
        0,
    );
    keys::lemma_prefixes_differ(
        key,
        keys::binding_prefix(branch),
        merge_lock::started_key(merge_id),
        "merge_started:"@,
        0,
    );
    let cleared = kv::without_prefix(restored(m, rows, branch), snapshot_prefix(merge_id));
    if merge_lock::lock_holder(cleared, branch) == Some(merge_id) {
        saga::lemma_holder_bytes(cleared, branch, merge_id);
    }
}

/// The rows up to `rows` restore the binding that row `at` holds.
proof fn lemma_restored_from(
    m: Map<Seq<char>, Seq<u8>>,
    all: Seq<(String, Vec<u8>)>,
    rows: Seq<(String, Vec<u8>)>,
    merge_id: MergeId,
    branch: BranchId,
    identity: IdentityId,
    revision: NodeRevisionId,
    at: int,
)
    requires
        snapshot_clean(m, merge_id),
        kv::scanned(m, snapshot_prefix(merge_id), all),
        rows == all.take(rows.len() as int),
        rows.len() <= all.len(),
        0 <= at < rows.len(),
        all[at].0@ == snapshot_key(merge_id, branch, identity),
        kv::value_at(m, all[at].0@) == Some(revision.0@),
    ensures
        kv::value_at(restored(m, rows, branch), keys::binding_key(branch, identity)) == Some(revision.0@),
    decreases rows.len(),
{
    let n = rows.len() - 1;
    lemma_snapshot_key(merge_id, branch, identity);
    assert(rows.last() == all[n]);
    assert(rows.drop_last() =~= all.take(n));
    assert(m.contains_pair(all[at].0@, all[at].1@));
    if at == n {
        assert(row_identity(rows.last(), branch) == Some(identity));
    } else {
        lemma_restored_from(
            m,
            all,
            rows.drop_last(),
            merge_id,
            branch,
            identity,
            revision,
            at,
        );
        if let Some(i) = row_identity(rows.last(), branch) {
            assert(m.contains_pair(all[n].0@, all[n].1@));
            let (b2, i2) = choose|b: BranchId, j: IdentityId|
                all[n].0@ == #[trigger] snapshot_key(merge_id, b, j);
            lemma_snapshot_key(merge_id, b2, i2);
            assert(all[at].0@ != all[n].0@);
            if i == identity {
                assert(b2 == branch && i2 == identity);
            }
            keys::lemma_binding_key_injective(branch, i, branch, identity);
        }
    }
}

} // verus!
