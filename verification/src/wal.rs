//! The log of changes.

use crate::graph::contains_revision;
use crate::ids::{IdentityId, MergeId, NodeRevisionId};
use crate::table;
use crate::table::Table;
use vstd::prelude::*;

verus! {

/// What a change is.
#[derive(Debug, Clone, Copy)]
pub enum MutationKind {
    Single,
    Merge { merge_id: MergeId },
    MergeCancelled { merge_id: MergeId },
    PromoteSpeculative { patch_id: u64 },
    RevertSpeculative { patch_id: u64 },
}

/// How far a change has come.
#[derive(Debug, Clone, Copy, PartialEq, Eq, Structural)]
pub enum MutationPhase {
    Pending,
    GraphCommitted,
    VectorCommitted,
    Committed,
    Failed,
}

impl MutationPhase {
    /// The change has neither come to its end nor failed.
    pub open spec fn in_flight(self) -> bool {
        self != MutationPhase::Committed && self != MutationPhase::Failed
    }

    /// Whether the change has neither come to its end nor failed.
    pub fn is_in_flight(&self) -> (r: bool)
        ensures
            r == self.in_flight(),
    {
        match self {
            MutationPhase::Committed | MutationPhase::Failed => false,
            _ => true,
        }
    }
}

/// A change on record.
#[derive(Debug, Clone)]
pub struct MutationRecord {
    pub log_id: u64,
    pub kind: MutationKind,
    pub phase: MutationPhase,
    pub affected_revisions: Vec<NodeRevisionId>,
    pub payload_checksum: [u8; 32],
    pub created_at_ms: u64,
}

/// What a record holds.
pub struct RecordView {
    pub log_id: u64,
    pub kind: MutationKind,
    pub phase: MutationPhase,
    pub affected: Seq<NodeRevisionId>,
    pub checksum: [u8; 32],
    pub created_at_ms: u64,
}

impl View for MutationRecord {
    type V = RecordView;

    open spec fn view(&self) -> RecordView {
        RecordView {
            log_id: self.log_id,
            kind: self.kind,
            phase: self.phase,
            affected: self.affected_revisions@,
            checksum: self.payload_checksum,
            created_at_ms: self.created_at_ms,
        }
    }
}

/// What records hold.
pub open spec fn record_views(v: Seq<MutationRecord>) -> Seq<RecordView> {
    v.map_values(|r: MutationRecord| r@)
}

/// A log held in memory. Its records are numbered in the order in which they came.
#[derive(Debug)]
pub struct MutationLog {
    records: Vec<MutationRecord>,
}

/// Why a record could not be appended.
#[derive(Debug, Clone, Copy, PartialEq, Eq, Structural)]
pub enum MutationLogError {
    /// There is no number left.
    Full,
}

impl View for MutationLog {
    type V = Seq<RecordView>;

    closed spec fn view(&self) -> Seq<RecordView> {
        record_views(self.records@)
    }
}

impl MutationLog {
    /// An empty log.
    pub fn new() -> (r: Self)
        ensures
            r@ == Seq::<RecordView>::empty(),
    {
        let r = MutationLog { records: Vec::new() };
        assert(r@ =~= Seq::<RecordView>::empty());
        r
    }

    /// Appends a record; its number is the number of records before it, counted from one.
    pub fn append(&mut self, rec: MutationRecord) -> (r: Result<u64, MutationLogError>)
        ensures
            r is Ok <==> old(self)@.len() < u64::MAX,
            r matches Ok(id) ==> id == old(self)@.len() + 1 && final(self)@ == old(self)@.push(
                RecordView { log_id: id, ..rec@ },
            ),
            r is Err ==> final(self)@ == old(self)@,
    {
        let n = self.records.len();
        assert(self@.len() == n);
        if n as u64 >= u64::MAX {
            return Err(MutationLogError::Full);
        }
        let id = n as u64 + 1;
        let ghost before = self@;
        let mut rec = rec;
        let ghost rv = rec@;
        rec.log_id = id;
        self.records.push(rec);
        assert(self@ =~= before.push(RecordView { log_id: id, ..rv }));
        Ok(id)
    }

    /// The record with a number: the first that has it.
    pub fn get(&self, log_id: u64) -> (r: Option<&MutationRecord>)
        ensures
            match r {
                Some(rec) => rec@.log_id == log_id && self@.contains(rec@),
                None => forall|i: int| 0 <= i < self@.len() ==> (#[trigger] self@[i]).log_id != log_id,
            },
    {
        let mut i: usize = 0;
        while i < self.records.len()
            invariant
                i <= self.records.len(),
                forall|j: int| 0 <= j < i ==> (#[trigger] self@[j]).log_id != log_id,
            decreases self.records.len() - i,
        {
            assert(self@[i as int] == self.records@[i as int]@);
            if self.records[i].log_id == log_id {
                assert(self@.contains(self@[i as int]));
                return Some(&self.records[i]);
            }
            i = i + 1;
        }
        None
    }

    /// The records, in order.
    pub fn iter_all(&self) -> (r: &Vec<MutationRecord>)
        ensures
            record_views(r@) == self@,
    {
        &self.records
    }

    /// How many records are in flight.
    pub fn in_flight_count(&self) -> (n: usize)
        ensures
            n == flying(self@),
    {
        let mut n: usize = 0;
        let mut i: usize = 0;
        assert(self@.take(0) =~= Seq::<RecordView>::empty());
        while i < self.records.len()
            invariant
                i <= self.records.len(),
                n <= i,
                n == flying(self@.take(i as int)),
            decreases self.records.len() - i,
        {
            proof {
                assert(self@.take(i + 1).drop_last() =~= self@.take(i as int));
                assert(self@.take(i + 1).last() == self.records@[i as int]@);
            }
            if self.records[i].phase.is_in_flight() {
                n = n + 1;
            }
            i = i + 1;
        }
        assert(self@.take(self@.len() as int) =~= self@);
        n
    }

    /// Whether a record that is in flight changes a revision.
    pub fn protects(&self, rid: NodeRevisionId) -> (r: bool)
        ensures
            r == in_flight_on(self@, rid),
    {
        let mut i: usize = 0;
        while i < self.records.len()
            invariant
                i <= self.records.len(),
                forall|j: int|
                    0 <= j < i ==> !((#[trigger] self@[j]).phase.in_flight()
                        && self@[j].affected.contains(rid)),
            decreases self.records.len() - i,
        {
            assert(self@[i as int] == self.records@[i as int]@);
            if self.records[i].phase.is_in_flight() && contains_revision(
                &self.records[i].affected_revisions,
                rid,
            ) {
                return true;
            }
            i = i + 1;
        }
        false
    }
}

/// How many records are in flight.
pub open spec fn flying(s: Seq<RecordView>) -> nat
    decreases s.len(),
{
    if s.len() == 0 {
        0
    } else {
        flying(s.drop_last()) + (if s.last().phase.in_flight() {
            1nat
        } else {
            0nat
        })
    }
}

/// A record that is in flight changes a revision.
pub open spec fn in_flight_on(s: Seq<RecordView>, rid: NodeRevisionId) -> bool {
    exists|i: int|
        0 <= i < s.len() && (#[trigger] s[i]).phase.in_flight() && s[i].affected.contains(rid)
}

/// The record of a merge that was cancelled.
pub open spec fn cancelled_record(rec: RecordView, merge_id: MergeId) -> bool {
    rec.kind == (MutationKind::MergeCancelled { merge_id }) && rec.phase
        == MutationPhase::Committed && rec.affected.len() == 0
}

/// Appends the mark of a merge that was cancelled.
pub fn append_merge_cancelled_marker(wal: &mut MutationLog, merge_id: MergeId) -> (r: Result<
    u64,
    MutationLogError,
>)
    ensures
        r is Ok <==> old(wal)@.len() < u64::MAX,
        r matches Ok(id) ==> id == old(wal)@.len() + 1 && final(wal)@.len() == old(wal)@.len() + 1
            && final(wal)@.len() == id && final(wal)@.drop_last() == old(wal)@ && cancelled_record(
            final(wal)@.last(),
            merge_id,
        ) && final(wal)@.last().log_id == id,
        r is Err ==> final(wal)@ == old(wal)@,
{
    let ghost before = wal@;
    let r = wal.append(
        MutationRecord {
            log_id: 0,
            kind: MutationKind::MergeCancelled { merge_id },
            phase: MutationPhase::Committed,
            affected_revisions: Vec::new(),
            payload_checksum: [0u8; 32],
            created_at_ms: 0,
        },
    );
    proof {
        if r is Ok {
            assert(wal@.drop_last() =~= before);
        }
    }
    r
}

/// Appends the mark of a cancelled merge, if everything was rolled back.
pub fn append_merge_cancelled_after_control(
    wal: &mut MutationLog,
    merge_id: MergeId,
    rollback_ok: bool,
) -> (r: Result<Option<u64>, MutationLogError>)
    ensures
        !rollback_ok ==> r == Ok::<Option<u64>, MutationLogError>(None) && final(wal)@ == old(wal)@,
        rollback_ok ==> (r is Ok <==> old(wal)@.len() < u64::MAX),
        rollback_ok && r is Ok ==> r->Ok_0 is Some && final(wal)@.len() == old(wal)@.len() + 1 && final(wal)@.drop_last() == old(wal)@
            && cancelled_record(final(wal)@.last(), merge_id) && final(wal)@.last().log_id
            == r->Ok_0->0,
        r is Err ==> final(wal)@ == old(wal)@,
{
    if !rollback_ok {
        return Ok(None);
    }
    match append_merge_cancelled_marker(wal, merge_id) {
        Ok(id) => Ok(Some(id)),
        Err(e) => Err(e),
    }
}

/// The revisions of promoted pairs.
pub open spec fn promoted_revisions(promoted: Seq<(IdentityId, NodeRevisionId)>) -> Seq<
    NodeRevisionId,
> {
    promoted.map_values(|p: (IdentityId, NodeRevisionId)| p.1)
}

/// Appends the mark of a merge that was committed, with the revisions it promoted.
pub fn append_merge_committed(
    wal: &mut MutationLog,
    merge_id: MergeId,
    promoted: &Vec<(IdentityId, NodeRevisionId)>,
) -> (r: Result<u64, MutationLogError>)
    ensures
        r is Ok <==> old(wal)@.len() < u64::MAX,
        r matches Ok(id) ==> id == old(wal)@.len() + 1 && final(wal)@.len() == id && final(wal)@.drop_last() == old(wal)@
            && final(wal)@.last().kind == (MutationKind::Merge { merge_id })
            && final(wal)@.last().phase == MutationPhase::Committed && final(wal)@.last().affected
            == promoted_revisions(promoted@) && final(wal)@.last().log_id == id,
        r is Err ==> final(wal)@ == old(wal)@,
{
    let mut affected: Vec<NodeRevisionId> = Vec::new();
    let mut i: usize = 0;
    while i < promoted.len()
        invariant
            i <= promoted.len(),
            affected.len() == i,
            forall|j: int| 0 <= j < i ==> #[trigger] affected@[j] == promoted@[j].1,
        decreases promoted.len() - i,
    {
        affected.push(promoted[i].1);
        i = i + 1;
    }
    assert(affected@ =~= promoted_revisions(promoted@));
    let ghost before = wal@;
    let r = wal.append(
        MutationRecord {
            log_id: 0,
            kind: MutationKind::Merge { merge_id },
            phase: MutationPhase::Committed,
            affected_revisions: affected,
            payload_checksum: [0u8; 32],
            created_at_ms: 0,
        },
    );
    proof {
        if r is Ok {
            assert(wal@.drop_last() =~= before);
        }
    }
    r
}

/// The last record that changed each revision.
pub struct MutationIndex {
    last: Table<NodeRevisionId, u64>,
}

impl View for MutationIndex {
    type V = Map<NodeRevisionId, u64>;

    closed spec fn view(&self) -> Map<NodeRevisionId, u64> {
        self.last@
    }
}

/// The index with revisions that a record changed.
pub open spec fn with_revisions(
    m: Map<NodeRevisionId, u64>,
    revisions: Seq<NodeRevisionId>,
    log_id: u64,
) -> Map<NodeRevisionId, u64>
    decreases revisions.len(),
{
    if revisions.len() == 0 {
        m
    } else {
        with_revisions(m, revisions.drop_last(), log_id).insert(revisions.last(), log_id)
    }
}

/// The index of records, in order.
pub open spec fn index_of(records: Seq<RecordView>) -> Map<NodeRevisionId, u64>
    decreases records.len(),
{
    if records.len() == 0 {
        Map::empty()
    } else {
        with_revisions(
            index_of(records.drop_last()),
            records.last().affected,
            records.last().log_id,
        )
    }
}

impl MutationIndex {
    /// An empty index.
    pub fn new() -> (r: Self)
        ensures
            r@ == Map::<NodeRevisionId, u64>::empty(),
    {
        MutationIndex { last: Table::new() }
    }

    /// How many revisions are indexed.
    pub fn len(&self) -> (n: usize)
        ensures
            n == self@.dom().len(),
    {
        let n = self.last.len();
        proof {
            table::lemma_map_of(self.last.rows());
        }
        n
    }

    /// Takes in a record.
    pub fn register_new_record(&mut self, rec: &MutationRecord)
        ensures
            final(self)@ == with_revisions(old(self)@, rec@.affected, rec@.log_id),
    {
        let ghost m0 = self@;
        let mut i: usize = 0;
        let ghost s = rec@.affected;
        assert(s.take(0) =~= Seq::<NodeRevisionId>::empty());
        while i < rec.affected_revisions.len()
            invariant
                i <= rec.affected_revisions.len(),
                s == rec.affected_revisions@,
                self@ == with_revisions(m0, s.take(i as int), rec.log_id),
            decreases rec.affected_revisions.len() - i,
        {
            proof {
                assert(s.take(i + 1).drop_last() =~= s.take(i as int));
            }
            self.last.insert(rec.affected_revisions[i], rec.log_id);
            i = i + 1;
        }
        assert(s.take(s.len() as int) =~= s);
    }

    /// Indexes a log anew.
    pub fn rebuild_from_wal(&mut self, rows: &Vec<MutationRecord>)
        ensures
            final(self)@ == index_of(record_views(rows@)),
    {
        self.last = Table::new();
        let ghost v = record_views(rows@);
        let mut i: usize = 0;
        assert(v.take(0) =~= Seq::<RecordView>::empty());
        while i < rows.len()
            invariant
                i <= rows.len(),
                v == record_views(rows@),
                self@ == index_of(v.take(i as int)),
            decreases rows.len() - i,
        {
            proof {
                assert(v.take(i + 1).drop_last() =~= v.take(i as int));
                assert(v.take(i + 1).last() == rows@[i as int]@);
            }
            self.register_new_record(&rows[i]);
            i = i + 1;
        }
        assert(v.take(v.len() as int) =~= v);
    }
}

/// A mark of a cancelled merge adds nothing to the index.
pub proof fn law_cancelled_merge_is_not_indexed(
    m: Map<NodeRevisionId, u64>,
    rec: RecordView,
    merge_id: MergeId,
)
    requires
        cancelled_record(rec, merge_id),
    ensures
        with_revisions(m, rec.affected, rec.log_id) == m,
{
}

} // verus!
