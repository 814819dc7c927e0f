//! A whole merge of one branch into another, from the lock to the commit.

use crate::bindings;
use crate::bindings::premerge_bindings_for_branch;
use crate::bytes;
use crate::bytes::u64_le;
use crate::cardinality::EdgeLimit;
use crate::clock::now_epoch_ms;
use crate::file_index::add_name;
use crate::graph::{GraphView, InMemoryGraph};
use crate::hex;
use crate::hex::{array16, decimal_text, parse_strict_id};
use crate::ids::{BranchId, IdentityId, MergeId, NodeRevisionId};
use crate::keys;
use crate::kv;
use crate::kv::MemoryKv;
use crate::merge_classify;
use crate::merge_classify::{MergeStrategy, MergeWorkflowStatus, PhaseAResult, phase_a_for_merge};
use crate::merge_control;
use crate::merge_edges;
use crate::merge_edges::{EdgeState, PhaseCResult, RegenOutcome};
use crate::merge_lock;
use crate::merge_lock::{merge_lock_holder, release_merge_lock};
use crate::merge_preflight;
use crate::merge_preflight::{MergePreflight, MergePreflightError};
use crate::merge_promote;
use crate::merge_promote::{PhaseBResult, phase_b_promote};
use crate::merge_resume;
use crate::merge_resume::{MergeContext, ResumeInput, ResumeView, phase_c_reconcile_tracked};
use crate::merge_saga_batch;
use crate::merge_saga_batch::{BatchView, SagaEdgeBatch, persist_saga_edge_batch};
use crate::path_lease::SpeculativePathTracker;
use crate::saga;
use crate::saga::{MergeSagaOrchestrator, SagaPhase, purge_saga_edge_payloads};
use crate::security::AuthError;
use crate::table::Table;
use crate::text;
use crate::text::{append_text, owned};
use crate::tracker::BranchReconciliationTracker;
use crate::wal;
use crate::wal::{MutationKind, MutationLog, MutationPhase, RecordView, append_merge_committed};
use vstd::prelude::*;

verus! {

/// A step of a merge, as it is reported.
#[derive(Debug)]
pub struct MergeProgressEvent {
    pub phase: String,
    pub elapsed_ms: u64,
    pub detail: String,
}

/// What an event says, the time aside.
pub type EventView = (Seq<char>, Seq<char>);

impl View for MergeProgressEvent {
    type V = EventView;

    open spec fn view(&self) -> EventView {
        (self.phase@, self.detail@)
    }
}

/// What events say.
pub open spec fn event_views(v: Seq<MergeProgressEvent>) -> Seq<EventView> {
    v.map_values(|e: MergeProgressEvent| e@)
}

/// Someone who hears of the steps of a merge.
pub trait MergeProgressSink {
    /// What was heard: the phase, the detail, the step and how many steps there are.
    spec fn heard(&self) -> Seq<(Seq<char>, Seq<char>, u32, u32)>;

    /// Hears of a step.
    fn on_progress(&mut self, event: &MergeProgressEvent, step: u32, total: u32)
        ensures
            final(self).heard() == old(self).heard().push((event@.0, event@.1, step, total)),
    ;
}

/// Keeps the steps that it hears of.
#[derive(Debug)]
pub struct ProgressLog {
    steps: Vec<(String, String, u32, u32)>,
}

impl ProgressLog {
    /// Nothing was heard.
    pub fn new() -> (r: Self)
        ensures
            r.heard() == Seq::<(Seq<char>, Seq<char>, u32, u32)>::empty(),
    {
        let r = ProgressLog { steps: Vec::new() };
        assert(r.heard() =~= Seq::empty());
        r
    }

    /// How many steps were heard of.
    pub fn count(&self) -> (n: usize)
        ensures
            n == self.heard().len(),
    {
        self.steps.len()
    }
}

impl MergeProgressSink for ProgressLog {
    closed spec fn heard(&self) -> Seq<(Seq<char>, Seq<char>, u32, u32)> {
        self.steps@.map_values(|s: (String, String, u32, u32)| (s.0@, s.1@, s.2, s.3))
    }

    fn on_progress(&mut self, event: &MergeProgressEvent, step: u32, total: u32) {
        let ghost before = self.heard();
        self.steps.push((owned(event.phase.as_str()), owned(event.detail.as_str()), step, total));
        assert(self.heard() =~= before.push((event@.0, event@.1, step, total)));
    }
}

/// How many steps a merge reports.
pub const MERGE_PROGRESS_TOTAL: u32 = 5;

/// Reports a step of a merge that started at a time.
fn report_merge_progress<S: MergeProgressSink>(
    progress: &mut Vec<MergeProgressEvent>,
    sink: &mut S,
    step: u32,
    started_ms: u64,
    phase: &str,
    detail: String,
)
    ensures
        event_views(final(progress)@) == event_views(old(progress)@).push((phase@, detail@)),
        final(sink).heard() == old(sink).heard().push(
            (phase@, detail@, step, MERGE_PROGRESS_TOTAL),
        ),
{
    let ghost before = event_views(progress@);
    let ghost ev = (phase@, detail@);
    let now = now_epoch_ms();
    let elapsed_ms: u64 = if now > started_ms {
        now - started_ms
    } else {
        0
    };
    let event = MergeProgressEvent { phase: owned(phase), elapsed_ms, detail };
    sink.on_progress(&event, step, MERGE_PROGRESS_TOTAL);
    progress.push(event);
    assert(event_views(progress@) =~= before.push(ev));
}

/// The time that each phase took, by the events of a merge: the time since the one before.
pub open spec fn phase_duration(times: Seq<u64>, i: int) -> u64 {
    let prev = if i > 0 {
        times[i - 1]
    } else {
        0
    };
    if times[i] > prev {
        (times[i] - prev) as u64
    } else {
        0
    }
}

/// What events name.
pub open spec fn event_names(v: Seq<MergeProgressEvent>) -> Seq<Seq<char>> {
    v.map_values(|e: MergeProgressEvent| e.phase@)
}

/// The times of events.
pub open spec fn event_times(v: Seq<MergeProgressEvent>) -> Seq<u64> {
    v.map_values(|e: MergeProgressEvent| e.elapsed_ms)
}

/// The time that each phase took: that of its last event.
pub open spec fn durations(names: Seq<Seq<char>>, times: Seq<u64>, n: int) -> Map<Seq<char>, u64>
    decreases n,
{
    if n <= 0 {
        Map::empty()
    } else {
        durations(names, times, n - 1).insert(names[n - 1], phase_duration(times, n - 1))
    }
}

/// Computes the time that each phase took.
pub fn phase_durations_from_timeline(timeline: &Vec<MergeProgressEvent>) -> (r: Table<String, u64>)
    ensures
        r@ == durations(event_names(timeline@), event_times(timeline@), timeline@.len() as int),
{
    let ghost names = event_names(timeline@);
    let ghost times = event_times(timeline@);
    let mut out: Table<String, u64> = Table::new();
    let mut prev: u64 = 0;
    let mut i: usize = 0;
    while i < timeline.len()
        invariant
            i <= timeline.len(),
            names == event_names(timeline@),
            times == event_times(timeline@),
            prev == (if i > 0 {
                times[i - 1]
            } else {
                0
            }),
            out@ == durations(names, times, i as int),
        decreases timeline.len() - i,
    {
        let e = &timeline[i];
        assert(names[i as int] == e.phase@);
        assert(times[i as int] == e.elapsed_ms);
        let took: u64 = if e.elapsed_ms > prev {
            e.elapsed_ms - prev
        } else {
            0
        };
        out.insert(owned(e.phase.as_str()), took);
        prev = e.elapsed_ms;
        i = i + 1;
    }
    out
}

/// The id of a merge that is started at a time: the time's bytes, once each way round.
pub open spec fn merge_id_at(now_ms: u64) -> Seq<u8> {
    bytes::le(now_ms as nat, 8) + bytes::le(now_ms as nat, 8).reverse()
}

/// Makes the id of a merge that is started at a time.
pub fn merge_id_from(now_ms: u64) -> (r: MergeId)
    ensures
        r.0@ == merge_id_at(now_ms),
{
    let front = u64_le(now_ms);
    let ghost f = front@;
    let mut all: Vec<u8> = Vec::new();
    let mut i: usize = 0;
    while i < front.len()
        invariant
            i <= front.len(),
            front@ == f,
            all@ == f.take(i as int),
        decreases front.len() - i,
    {
        all.push(front[i]);
        assert(all@ =~= f.take(i + 1));
        i = i + 1;
    }
    assert(f.take(f.len() as int) =~= f);
    assert(all@ =~= f + f.reverse().take(0));
    let mut k: usize = front.len();
    while k > 0
        invariant
            k <= front.len(),
            front@ == f,
            all@ == f + f.reverse().take(f.len() - k),
        decreases k,
    {
        all.push(front[k - 1]);
        assert(all@ =~= f + f.reverse().take(f.len() - k + 1));
        k = k - 1;
    }
    assert(f.reverse().take(f.len() as int) =~= f.reverse());
    assert(f.len() == 8);
    MergeId(array16(&all))
}

/// Makes the id of a merge that is started now.
pub fn merge_id_from_now() -> (r: MergeId)
    ensures
        exists|now_ms: u64| r.0@ == #[trigger] merge_id_at(now_ms),
{
    let now_ms = now_epoch_ms();
    merge_id_from(now_ms)
}

/// The files of bound revisions, as far as the graph holds them, in order.
pub open spec fn bound_files(g: GraphView, pairs: Seq<(IdentityId, NodeRevisionId)>) -> Seq<Seq<char>>
    decreases pairs.len(),
{
    if pairs.len() == 0 {
        Seq::empty()
    } else {
        let front = bound_files(g, pairs.drop_last());
        match g.rev(pairs.last().1) {
            Some(r) => front.push(r.file_path),
            None => front,
        }
    }
}

/// Finds the files of bound revisions.
fn files_of_bindings(graph: &InMemoryGraph, pairs: &Vec<(IdentityId, NodeRevisionId)>) -> (r: Vec<
    String,
>)
    ensures
        text::texts(r@) == bound_files(graph@, pairs@),
{
    let mut out: Vec<String> = Vec::new();
    let mut i: usize = 0;
    proof {
        assert(pairs@.take(0) =~= Seq::<(IdentityId, NodeRevisionId)>::empty());
        assert(text::texts(out@) =~= Seq::empty());
    }
    while i < pairs.len()
        invariant
            i <= pairs.len(),
            text::texts(out@) == bound_files(graph@, pairs@.take(i as int)),
        decreases pairs.len() - i,
    {
        proof {
            assert(pairs@.take(i + 1).drop_last() =~= pairs@.take(i as int));
            assert(pairs@.take(i + 1).last() == pairs@[i as int]);
        }
        if let Some(rev) = graph.get_revision(pairs[i].1) {
            add_name(&mut out, owned(rev.file_path.as_str()));
        }
        i = i + 1;
    }
    assert(pairs@.take(pairs@.len() as int) =~= pairs@);
    out
}

/// How a merge that cannot start is refused.
pub open spec fn refusal(e: MergePreflightError) -> AuthError {
    match e {
        MergePreflightError::Locked { .. } => AuthError::Forbidden,
        MergePreflightError::SpeculativeConflict { .. } => AuthError::Forbidden,
        MergePreflightError::Cas(_) => AuthError::InvalidInput,
    }
}

/// Tells how a merge that cannot start is refused.
fn refuse(e: MergePreflightError) -> (r: AuthError)
    ensures
        r == refusal(e),
{
    match e {
        MergePreflightError::Locked { .. } => AuthError::Forbidden,
        MergePreflightError::SpeculativeConflict { .. } => AuthError::Forbidden,
        MergePreflightError::Cas(_) => AuthError::InvalidInput,
    }
}

/// A merge is started: the target is locked for it, and its bindings are kept.
pub open spec fn merge_started(
    m: Map<Seq<char>, Seq<u8>>,
    g: GraphView,
    counts: Map<Seq<char>, u32>,
    target: BranchId,
    merge_id: MergeId,
    now_ms: u64,
    r: Result<(), AuthError>,
    after: Map<Seq<char>, Seq<u8>>,
) -> bool {
    exists|
        b: Map<IdentityId, NodeRevisionId>,
        pairs: Seq<(IdentityId, NodeRevisionId)>,
        p: Result<(), MergePreflightError>,
        locked: Map<Seq<char>, Seq<u8>>,
    |
        #![trigger bindings::branch_binds(m, target, b), bindings::pairs_of(b, pairs), merge_preflight::preflight(m, counts, target, merge_id, bound_files(g, pairs), now_ms, p, locked)]
        {
            &&& bindings::branch_binds(m, target, b)
            &&& bindings::pairs_of(b, pairs)
            &&& merge_preflight::preflight(m, counts, target, merge_id, bound_files(g, pairs), now_ms, p, locked)
            &&& match p {
                Ok(_) => r is Ok && after == merge_control::premerge_recorded(locked, merge_id, target, pairs),
                Err(e) => r == Err::<(), AuthError>(refusal(e)) && after == locked,
            }
        }
}

/// Starts a merge.
fn start_merge(
    kv: &mut MemoryKv,
    graph: &InMemoryGraph,
    spec_paths: &SpeculativePathTracker,
    target: BranchId,
    merge_id: MergeId,
    now_ms: u64,
) -> (r: Result<(), AuthError>)
    ensures
        merge_started(
            old(kv)@,
            graph@,
            spec_paths@,
            target,
            merge_id,
            now_ms,
            r,
            final(kv)@,
        ),
{
    let ghost m0 = kv@;
    let pairs = premerge_bindings_for_branch(kv, target);
    let files = files_of_bindings(graph, &pairs);
    let p = MergePreflight::begin_with_snapshot_at(
        kv,
        target,
        merge_id,
        &files,
        spec_paths,
        &pairs,
        now_ms,
    );
    let ghost b = choose|b: Map<IdentityId, NodeRevisionId>| #[trigger]
        bindings::branch_binds(m0, target, b) && bindings::pairs_of(b, pairs@);
    let ghost locked = choose|locked: Map<Seq<char>, Seq<u8>>| #[trigger]
        merge_preflight::preflight(
            m0,
            spec_paths@,
            target,
            merge_id,
            text::texts(files@),
            now_ms,
            p,
            locked,
        ) && kv@ == (if p is Ok {
            merge_control::premerge_recorded(locked, merge_id, target, pairs@)
        } else {
            locked
        });
    proof {
        assert(bindings::branch_binds(m0, target, b) && bindings::pairs_of(b, pairs@));
        assert(merge_preflight::preflight(
            m0,
            spec_paths@,
            target,
            merge_id,
            bound_files(graph@, pairs@),
            now_ms,
            p,
            locked,
        ));
    }
    match p {
        Ok(_) => Ok(()),
        Err(e) => Err(refuse(e)),
    }
}

/// What a merge of a branch into another works on.
pub open spec fn merge_context(
    merge_id: MergeId,
    source: BranchId,
    target: BranchId,
    strategy: Option<MergeStrategy>,
) -> MergeContext {
    MergeContext {
        merge_id,
        ours_branch: target,
        theirs_branch: source,
        base_branch: target,
        target_branch: target,
        strategy,
    }
}

/// The store once edge batches are on record.
pub open spec fn batches_recorded(
    m: Map<Seq<char>, Seq<u8>>,
    merge_id: MergeId,
    batches: Seq<BatchView>,
) -> Map<Seq<char>, Seq<u8>>
    decreases batches.len(),
{
    if batches.len() == 0 {
        m
    } else {
        let b = batches.last();
        batches_recorded(m, merge_id, batches.drop_last()).insert(
            saga::payload_key(merge_id, b.seq),
            merge_saga_batch::batch_bytes(b),
        ).insert(saga::marker_key(merge_id, b.seq), seq![1u8])
    }
}

/// Puts edge batches on record.
fn record_batches(
    kv: &mut MemoryKv,
    saga: &MergeSagaOrchestrator,
    merge_id: MergeId,
    batches: &Vec<SagaEdgeBatch>,
)
    requires
        !saga.loses(),
    ensures
        final(kv)@ == batches_recorded(old(kv)@, merge_id, merge_saga_batch::batch_views(batches@)),
{
    let ghost m0 = kv@;
    let ghost s = merge_saga_batch::batch_views(batches@);
    let mut i: usize = 0;
    assert(s.take(0) =~= Seq::<BatchView>::empty());
    while i < batches.len()
        invariant
            i <= batches.len(),
            !saga.loses(),
            s == merge_saga_batch::batch_views(batches@),
            kv@ == batches_recorded(m0, merge_id, s.take(i as int)),
        decreases batches.len() - i,
    {
        proof {
            assert(s.take(i + 1).drop_last() =~= s.take(i as int));
            assert(s.take(i + 1).last() == batches@[i as int]@);
        }
        persist_saga_edge_batch(kv, merge_id, &batches[i]);
        saga.persist_batch_marker(kv, merge_id, batches[i].seq);
        i = i + 1;
    }
    assert(s.take(s.len() as int) =~= s);
}

/// The store once a merge is committed: its phase is on record; its edge batches, its context and
/// its lock are gone.
pub open spec fn merge_closed(m: Map<Seq<char>, Seq<u8>>, target: BranchId, merge_id: MergeId) -> Map<
    Seq<char>,
    Seq<u8>,
> {
    let n = kv::without_prefix(
        merge_resume::phase_put(m, false, merge_id, SagaPhase::Committed),
        saga::payload_prefix(merge_id),
    ).remove(merge_resume::context_key(merge_id));
    if kv::value_at(n, merge_lock::lock_key(target)) == Some(merge_id.0@) {
        merge_lock::lock_released(n, target, merge_id)
    } else {
        n
    }
}

/// The log once a merge is committed; a full log stays as it is.
pub open spec fn merge_logged(
    log: Seq<RecordView>,
    merge_id: MergeId,
    promoted: Seq<(IdentityId, NodeRevisionId)>,
    after: Seq<RecordView>,
) -> bool {
    if log.len() < u64::MAX {
        &&& after.len() == log.len() + 1
        &&& after.drop_last() == log
        &&& after.last().kind == (MutationKind::Merge { merge_id })
        &&& after.last().phase == MutationPhase::Committed
        &&& after.last().affected == wal::promoted_revisions(promoted)
    } else {
        after == log
    }
}

/// What a merge came to.
#[derive(Debug)]
pub struct MergeOutcome {
    /// Whether the merge was committed; otherwise conflicts wait for a strategy.
    pub committed: bool,
    pub phase_a: PhaseAResult,
    pub phase_b: PhaseBResult,
    pub phase_c: PhaseCResult,
    pub message: String,
    pub progress: Vec<MergeProgressEvent>,
}

/// What a merge holds, its label aside.
pub open spec fn merge_view(o: MergeOutcome) -> ResumeView {
    ResumeView {
        label: Seq::empty(),
        report: o.phase_a.report@,
        classified: merge_classify::classified_views(o.phase_a.classified@),
        promoted: o.phase_b.promoted@,
        orphaned: o.phase_b.orphaned_revisions@,
        unresolved: merge_classify::classified_views(o.phase_b.unresolved_conflicts@),
        edges: o.phase_c@,
    }
}

/// What the first phase is reported as.
pub open spec fn classified_detail(out: ResumeView) -> Seq<char> {
    "Classified "@ + hex::decimal(out.classified.len()) + " identities: "@ + hex::decimal(
        out.report.resolved_count,
    ) + " resolved, "@ + hex::decimal(out.report.conflicts.len()) + " conflicts, "@ + hex::decimal(
        out.report.rename_detections.len(),
    ) + " renames"@
}

/// What the second phase is reported as.
pub open spec fn promoted_detail(out: ResumeView) -> Seq<char> {
    "Promoted "@ + hex::decimal(out.promoted.len()) + " revisions, orphaned "@ + hex::decimal(
        out.orphaned.len(),
    )
}

/// What the third phase is reported as.
pub open spec fn edges_detail(out: ResumeView) -> Seq<char> {
    "Regenerated "@ + hex::decimal(out.edges.regenerated as nat) + " revisions, checked "@ + hex::decimal(
        out.edges.checked as nat,
    ) + " edges: "@ + hex::decimal(out.edges.dangling as nat) + " dangling, "@ + hex::decimal(
        out.edges.drifts.len(),
    ) + " drift, "@ + hex::decimal(out.edges.reresolved as nat) + " reresolved"@
}

/// The steps that are reported of a merge up to its first phase.
pub open spec fn first_steps(out: ResumeView) -> Seq<EventView> {
    seq![("Intent"@, "Merge initiated"@), ("Classifying"@, classified_detail(out))]
}

/// The steps that are reported of a merge that was committed.
pub open spec fn all_steps(out: ResumeView) -> Seq<EventView> {
    first_steps(out) + seq![
        ("Promoting"@, promoted_detail(out)),
        ("EdgeReconciliation"@, edges_detail(out)),
        ("Committed"@, "Merge committed"@),
    ]
}

/// Steps with their numbers.
pub open spec fn numbered(s: Seq<EventView>) -> Seq<(Seq<char>, Seq<char>, u32, u32)> {
    Seq::new(s.len(), |i: int| (s[i].0, s[i].1, (i + 1) as u32, MERGE_PROGRESS_TOTAL))
}

/// What is said of a merge that waits for a strategy.
pub open spec fn waiting_message(out: ResumeView) -> Seq<char> {
    "Phase A complete: "@ + hex::decimal(out.report.conflicts.len())
        + " conflicts require resolution. Re-call with merge_id and strategy='ours' or 'theirs'."@
}

/// What is said of a merge that was committed.
pub open spec fn committed_message(out: ResumeView) -> Seq<char> {
    "Merge complete: "@ + hex::decimal(out.promoted.len()) + " promoted, "@ + hex::decimal(
        out.orphaned.len(),
    ) + " orphaned, "@ + hex::decimal(out.edges.regenerated as nat) + " edges regenerated, "@ + hex::decimal(
        out.edges.dangling as nat,
    ) + " dangling removed"@
}

/// What a merge that was started comes to: `m` is the store once its target is locked.
pub open spec fn merge_ran(
    x: ResumeInput,
    m: Map<Seq<char>, Seq<u8>>,
    g: GraphView,
    log: Seq<RecordView>,
    jobs: Set<(BranchId, u64)>,
    o: MergeOutcome,
    m_after: Map<Seq<char>, Seq<u8>>,
    g_after: GraphView,
    log_after: Seq<RecordView>,
    jobs_after: Set<(BranchId, u64)>,
) -> bool {
    let out = merge_view(o);
    let target = x.ctx.target_branch;
    let kept = m.insert(merge_resume::context_key(x.merge_id), merge_resume::context_record(x.ctx));
    let m1 = merge_resume::phase_put(
        merge_resume::phase_put(kept, false, x.merge_id, SagaPhase::Intent),
        false,
        x.merge_id,
        SagaPhase::Classifying,
    );
    &&& merge_resume::classified_for(x, m1, g, out)
    &&& o.committed <==> !(out.report.status == MergeWorkflowStatus::RequiresResolution
        && x.ctx.strategy is None)
    &&& if o.committed {
        let p = merge_promote::promoted_all(
            merge_promote::promotion_start(merge_resume::phase_put(m1, false, x.merge_id, SagaPhase::Promoting), g),
            target,
            out.classified,
            x.ctx.strategy,
        );
        let m2 = merge_resume::phase_put(p.m, false, x.merge_id, SagaPhase::EdgeBatch { seq: 0 });
        &&& out.promoted == p.promoted
        &&& out.orphaned == p.orphaned
        &&& out.unresolved == p.unresolved
        &&& merge_edges::phase_c(
            p.g,
            m2,
            x.outcomes,
            target,
            out.promoted,
            out.classified,
            x.limits,
            EdgeState { g: g_after, c: out.edges },
        )
        &&& m_after == merge_closed(
            batches_recorded(m2, x.merge_id, out.edges.batches),
            target,
            x.merge_id,
        )
        &&& merge_logged(log, x.merge_id, out.promoted, log_after)
        &&& jobs_after == merge_resume::jobs_after(jobs, target, x.merge_id, out.edges)
        &&& o.message@ == committed_message(out)
        &&& event_views(o.progress@) == all_steps(out)
    } else {
        &&& m_after == m1
        &&& g_after == g
        &&& log_after == log
        &&& jobs_after == jobs
        &&& out.promoted.len() == 0
        &&& out.orphaned.len() == 0
        &&& out.unresolved.len() == 0
        &&& out.edges == merge_edges::phase_c_start()
        &&& o.message@ == waiting_message(out)
        &&& event_views(o.progress@) == first_steps(out)
    }
}

/// Appends a number and a text.
fn append_count(s: &mut String, n: usize, tail: &str)
    ensures
        final(s)@ == old(s)@ + hex::decimal(n as nat) + tail@,
{
    append_text(s, decimal_text(n as u64).as_str());
    append_text(s, tail);
}

/// Reports the first phase.
fn tell_classified(a: &PhaseAResult) -> (r: String)
    ensures
        forall|out: ResumeView|
            out.report == a.report@ && out.classified == merge_classify::classified_views(a.classified@) ==> r@
                == #[trigger] classified_detail(out),
{
    let mut d = owned("Classified ");
    append_count(&mut d, a.classified.len(), " identities: ");
    append_count(&mut d, a.report.resolved_count, " resolved, ");
    append_count(&mut d, a.report.conflicts.len(), " conflicts, ");
    append_count(&mut d, a.report.rename_detections.len(), " renames");
    assert(merge_classify::classified_views(a.classified@).len() == a.classified@.len());
    assert(a.report@.conflicts.len() == a.report.conflicts@.len());
    assert(a.report@.rename_detections.len() == a.report.rename_detections@.len());
    d
}

/// Reports the second phase.
fn tell_promoted(b: &PhaseBResult) -> (r: String)
    ensures
        forall|out: ResumeView|
            out.promoted == b.promoted@ && out.orphaned == b.orphaned_revisions@ ==> r@
                == #[trigger] promoted_detail(out),
{
    let mut d = owned("Promoted ");
    append_count(&mut d, b.promoted.len(), " revisions, orphaned ");
    append_text(&mut d, decimal_text(b.orphaned_revisions.len() as u64).as_str());
    d
}

/// Reports the third phase.
fn tell_edges(c: &PhaseCResult) -> (r: String)
    ensures
        forall|out: ResumeView| out.edges == c@ ==> r@ == #[trigger] edges_detail(out),
{
    let mut d = owned("Regenerated ");
    append_count(&mut d, c.edges_regenerated, " revisions, checked ");
    append_count(&mut d, c.edges_checked, " edges: ");
    append_count(&mut d, c.dangling_edges_removed, " dangling, ");
    append_count(&mut d, c.signature_drifts.len(), " drift, ");
    append_count(&mut d, c.signature_reresolved, " reresolved");
    assert(c@.drifts.len() == c.signature_drifts@.len());
    d
}

/// Says that a merge waits for a strategy.
fn tell_waiting(a: &PhaseAResult) -> (r: String)
    ensures
        forall|out: ResumeView| out.report == a.report@ ==> r@ == #[trigger] waiting_message(out),
{
    let mut d = owned("Phase A complete: ");
    append_count(
        &mut d,
        a.report.conflicts.len(),
        " conflicts require resolution. Re-call with merge_id and strategy='ours' or 'theirs'.",
    );
    assert(a.report@.conflicts.len() == a.report.conflicts@.len());
    d
}

/// Says that a merge was committed.
fn tell_committed(b: &PhaseBResult, c: &PhaseCResult) -> (r: String)
    ensures
        forall|out: ResumeView|
            out.promoted == b.promoted@ && out.orphaned == b.orphaned_revisions@ && out.edges == c@
                ==> r@ == #[trigger] committed_message(out),
{
    let mut d = owned("Merge complete: ");
    append_count(&mut d, b.promoted.len(), " promoted, ");
    append_count(&mut d, b.orphaned_revisions.len(), " orphaned, ");
    append_count(&mut d, c.edges_regenerated, " edges regenerated, ");
    append_count(&mut d, c.dangling_edges_removed, " dangling removed");
    d
}

/// Closes a merge that went through all phases.
fn close_merge(
    kv: &mut MemoryKv,
    saga: &MergeSagaOrchestrator,
    wal: &mut MutationLog,
    target: BranchId,
    merge_id: MergeId,
    promoted: &Vec<(IdentityId, NodeRevisionId)>,
)
    requires
        !saga.loses(),
    ensures
        final(kv)@ == merge_closed(old(kv)@, target, merge_id),
        merge_logged(old(wal)@, merge_id, promoted@, final(wal)@),
{
    saga.persist(kv, merge_id, SagaPhase::Committed);
    let _ = append_merge_committed(wal, merge_id, promoted);
    purge_saga_edge_payloads(kv, merge_id);
    MergeContext::remove(kv, merge_id);
    let _ = release_merge_lock(kv, target, merge_id);
}

/// Runs a merge whose target is locked for it.
pub fn run_merge<S: MergeProgressSink>(
    kv: &mut MemoryKv,
    graph: &mut InMemoryGraph,
    wal: &mut MutationLog,
    tracker: &mut BranchReconciliationTracker,
    merge_id: MergeId,
    source: BranchId,
    target: BranchId,
    strategy: Option<MergeStrategy>,
    outcomes: Option<&Vec<(String, RegenOutcome)>>,
    limits: &Vec<EdgeLimit>,
    sink: &mut S,
    started_ms: u64,
) -> (r: MergeOutcome)
    ensures
        merge_ran(
            ResumeInput {
                ctx: merge_context(merge_id, source, target, strategy),
                merge_id,
                loses: false,
                outcomes: merge_edges::given_outcomes(outcomes),
                limits: limits@,
            },
            old(kv)@,
            old(graph)@,
            old(wal)@,
            old(tracker)@,
            r,
            final(kv)@,
            final(graph)@,
            final(wal)@,
            final(tracker)@,
        ),
        final(sink).heard() == old(sink).heard() + numbered(event_views(r.progress@)),
{
    let ghost heard = sink.heard();
    let saga = MergeSagaOrchestrator::new();
    let mut progress: Vec<MergeProgressEvent> = Vec::new();
    proof {
        assert(event_views(progress@) =~= Seq::empty());
        assert(heard + numbered(event_views(progress@)) =~= heard);
    }
    let ctx = MergeContext {
        merge_id,
        ours_branch: target,
        theirs_branch: source,
        base_branch: target,
        target_branch: target,
        strategy,
    };
    ctx.persist(kv);
    saga.persist(kv, merge_id, SagaPhase::Intent);
    report_merge_progress(
        &mut progress,
        sink,
        1,
        started_ms,
        "Intent",
        owned("Merge initiated"),
    );
    saga.persist(kv, merge_id, SagaPhase::Classifying);
    let phase_a = phase_a_for_merge(graph, kv, merge_id, target, source, target, target);
    let detail = tell_classified(&phase_a);
    report_merge_progress(&mut progress, sink, 2, started_ms, "Classifying", detail);
    let conflicts = match phase_a.report.status {
        MergeWorkflowStatus::RequiresResolution => true,
        _ => false,
    };
    if conflicts && strategy.is_none() {
        let message = tell_waiting(&phase_a);
        let o = MergeOutcome {
            committed: false,
            phase_a,
            phase_b: PhaseBResult::new(),
            phase_c: PhaseCResult::new(),
            message,
            progress,
        };
        proof {
            let out = merge_view(o);
            assert(o.message@ == waiting_message(out));
            assert(event_views(o.progress@) =~= first_steps(out));
            assert(sink.heard() =~= heard + numbered(event_views(o.progress@)));
        }
        return o;
    }
    saga.persist(kv, merge_id, SagaPhase::Promoting);
    let phase_b = phase_b_promote(kv, graph, target, &phase_a.classified, strategy);
    let detail = tell_promoted(&phase_b);
    report_merge_progress(&mut progress, sink, 3, started_ms, "Promoting", detail);
    saga.persist(kv, merge_id, SagaPhase::EdgeBatch { seq: 0 });
    let phase_c = phase_c_reconcile_tracked(
        graph,
        kv,
        outcomes,
        target,
        merge_id,
        &phase_b.promoted,
        Some(&phase_a.classified),
        Some(tracker),
        limits,
    );
    record_batches(kv, &saga, merge_id, &phase_c.saga_batches);
    let detail = tell_edges(&phase_c);
    report_merge_progress(&mut progress, sink, 4, started_ms, "EdgeReconciliation", detail);
    close_merge(kv, &saga, wal, target, merge_id, &phase_b.promoted);
    report_merge_progress(
        &mut progress,
        sink,
        5,
        started_ms,
        "Committed",
        owned("Merge committed"),
    );
    let message = tell_committed(&phase_b, &phase_c);
    let o = MergeOutcome { committed: true, phase_a, phase_b, phase_c, message, progress };
    proof {
        let out = merge_view(o);
        assert(o.message@ == committed_message(out));
        assert(event_views(o.progress@) =~= all_steps(out));
        assert(sink.heard() =~= heard + numbered(event_views(o.progress@)));
    }
    o
}

/// Why a merge does not start: an id is malformed, a merge to go on with does not hold the target,
/// or the target cannot be locked.
pub open spec fn merge_request(
    source_hex: Seq<char>,
    target_hex: Seq<char>,
    merge_hex: Option<Seq<char>>,
) -> bool {
    &&& hex::strict_id(source_hex) is Some
    &&& hex::strict_id(target_hex) is Some
    &&& merge_hex matches Some(h) ==> hex::strict_id(h) is Some
}

/// The way to a merge that runs, or to an error, at a time.
pub open spec fn merge_admitted(
    m: Map<Seq<char>, Seq<u8>>,
    g: GraphView,
    counts: Map<Seq<char>, u32>,
    target: BranchId,
    merge_id: MergeId,
    continuing: bool,
    now_ms: u64,
    r: Result<(), AuthError>,
    after: Map<Seq<char>, Seq<u8>>,
) -> bool {
    if continuing {
        &&& after == m
        &&& if merge_lock::lock_holder(m, target) == Some(merge_id) {
            r is Ok
        } else {
            r == Err::<(), AuthError>(AuthError::InvalidInput)
        }
    } else {
        merge_started(m, g, counts, target, merge_id, now_ms, r, after)
    }
}

/// Locks the target of a new merge, or looks whether a merge to go on with holds it.
pub fn admit_merge(
    kv: &mut MemoryKv,
    graph: &InMemoryGraph,
    spec_paths: &SpeculativePathTracker,
    target: BranchId,
    merge_id: MergeId,
    continuing: bool,
    now_ms: u64,
) -> (r: Result<(), AuthError>)
    ensures
        merge_admitted(
            old(kv)@,
            graph@,
            spec_paths@,
            target,
            merge_id,
            continuing,
            now_ms,
            r,
            final(kv)@,
        ),
{
    if continuing {
        let holds = match merge_lock_holder(kv, target) {
            Some(h) => h == merge_id,
            None => false,
        };
        if holds {
            Ok(())
        } else {
            Err(AuthError::InvalidInput)
        }
    } else {
        start_merge(kv, graph, spec_paths, target, merge_id, now_ms)
    }
}

/// A request to merge.
pub struct MergeRequest {
    pub source_hex: Seq<char>,
    pub target_hex: Seq<char>,
    pub merge_hex: Option<Seq<char>>,
    pub strategy: Option<MergeStrategy>,
    pub outcomes: Option<Seq<(String, RegenOutcome)>>,
    pub limits: Seq<EdgeLimit>,
    pub counts: Map<Seq<char>, u32>,
    pub now_ms: u64,
}

/// What a merge works on.
pub struct MergeState {
    pub m: Map<Seq<char>, Seq<u8>>,
    pub g: GraphView,
    pub log: Seq<RecordView>,
    pub jobs: Set<(BranchId, u64)>,
}

/// A well-formed request is let in, or not, and the merge runs.
pub open spec fn merge_went(
    q: MergeRequest,
    source: BranchId,
    target: BranchId,
    merge_id: MergeId,
    a: Result<(), AuthError>,
    m1: Map<Seq<char>, Seq<u8>>,
    before: MergeState,
    r: Result<(MergeId, MergeOutcome), AuthError>,
    after: MergeState,
) -> bool {
    &&& hex::strict_id(q.source_hex) == Some(source.0@)
    &&& hex::strict_id(q.target_hex) == Some(target.0@)
    &&& merge_id.0@ == (match q.merge_hex {
        Some(h) => hex::strict_id(h)->0,
        None => merge_id_at(q.now_ms),
    })
    &&& merge_admitted(
        before.m,
        before.g,
        q.counts,
        target,
        merge_id,
        q.merge_hex is Some,
        q.now_ms,
        a,
        m1,
    )
    &&& match (a, r) {
        (Ok(_), Ok((id, o))) => id == merge_id && merge_ran(
            ResumeInput {
                ctx: merge_context(merge_id, source, target, q.strategy),
                merge_id,
                loses: false,
                outcomes: q.outcomes,
                limits: q.limits,
            },
            m1,
            before.g,
            before.log,
            before.jobs,
            o,
            after.m,
            after.g,
            after.log,
            after.jobs,
        ),
        (Err(e), Err(f)) => e == f && after == (MergeState { m: m1, ..before }),
        _ => false,
    }
}

/// What a request to merge may come to.
pub open spec fn merge_requested(
    q: MergeRequest,
    before: MergeState,
    r: Result<(MergeId, MergeOutcome), AuthError>,
    after: MergeState,
) -> bool {
    if !merge_request(q.source_hex, q.target_hex, q.merge_hex) {
        r == Err::<(MergeId, MergeOutcome), AuthError>(AuthError::InvalidInput) && after == before
    } else {
        exists|
            source: BranchId,
            target: BranchId,
            merge_id: MergeId,
            a: Result<(), AuthError>,
            m1: Map<Seq<char>, Seq<u8>>,
        | #[trigger]
            merge_went(q, source, target, merge_id, a, m1, before, r, after)
    }
}

/// Merges a branch into another at a time, or goes on with a merge.
pub fn merge_branch_at<S: MergeProgressSink>(
    kv: &mut MemoryKv,
    graph: &mut InMemoryGraph,
    wal: &mut MutationLog,
    tracker: &mut BranchReconciliationTracker,
    spec_paths: &SpeculativePathTracker,
    source_branch_hex: &str,
    target_branch_hex: &str,
    strategy: Option<MergeStrategy>,
    merge_id_hex: Option<&str>,
    outcomes: Option<&Vec<(String, RegenOutcome)>>,
    limits: &Vec<EdgeLimit>,
    sink: &mut S,
    now_ms: u64,
) -> (r: Result<(MergeId, MergeOutcome), AuthError>)
    ensures
        merge_requested(
            MergeRequest {
                source_hex: source_branch_hex@,
                target_hex: target_branch_hex@,
                merge_hex: given_text(merge_id_hex),
                strategy,
                outcomes: merge_edges::given_outcomes(outcomes),
                limits: limits@,
                counts: spec_paths@,
                now_ms,
            },
            MergeState {
                m: old(kv)@,
                g: old(graph)@,
                log: old(wal)@,
                jobs: old(tracker)@,
            },
            r,
            MergeState {
                m: final(kv)@,
                g: final(graph)@,
                log: final(wal)@,
                jobs: final(tracker)@,
            },
        ),
        r is Err ==> final(sink).heard() == old(sink).heard(),
        r matches Ok((_, o)) ==> final(sink).heard() == old(sink).heard() + numbered(
            event_views(o.progress@),
        ),
{
    let source = match parse_strict_id(source_branch_hex) {
        Some(b) => BranchId(b),
        None => {
            return Err(AuthError::InvalidInput);
        },
    };
    let target = match parse_strict_id(target_branch_hex) {
        Some(b) => BranchId(b),
        None => {
            return Err(AuthError::InvalidInput);
        },
    };
    let merge_id = match merge_id_hex {
        Some(h) => match parse_strict_id(h) {
            Some(b) => MergeId(b),
            None => {
                return Err(AuthError::InvalidInput);
            },
        },
        None => merge_id_from(now_ms),
    };
    let ghost q = MergeRequest {
        source_hex: source_branch_hex@,
        target_hex: target_branch_hex@,
        merge_hex: given_text(merge_id_hex),
        strategy,
        outcomes: merge_edges::given_outcomes(outcomes),
        limits: limits@,
        counts: spec_paths@,
        now_ms,
    };
    let ghost before = MergeState { m: kv@, g: graph@, log: wal@, jobs: tracker@ };
    let continuing = merge_id_hex.is_some();
    let a = admit_merge(kv, graph, spec_paths, target, merge_id, continuing, now_ms);
    let ghost m1 = kv@;
    if let Err(e) = a {
        let r: Result<(MergeId, MergeOutcome), AuthError> = Err(e);
        proof {
            let after = MergeState { m: kv@, g: graph@, log: wal@, jobs: tracker@ };
            assert(merge_went(q, source, target, merge_id, a, m1, before, r, after));
        }
        return r;
    }
    let o = run_merge(
        kv,
        graph,
        wal,
        tracker,
        merge_id,
        source,
        target,
        strategy,
        outcomes,
        limits,
        sink,
        now_ms,
    );
    let r: Result<(MergeId, MergeOutcome), AuthError> = Ok((merge_id, o));
    proof {
        let after = MergeState { m: kv@, g: graph@, log: wal@, jobs: tracker@ };
        assert(merge_went(q, source, target, merge_id, a, m1, before, r, after));
    }
    r
}

/// An optional text.
pub open spec fn given_text(t: Option<&str>) -> Option<Seq<char>> {
    match t {
        Some(x) => Some(x@),
        None => None,
    }
}

/// Merges a branch into another now, or goes on with a merge; a sink, if there is one, hears of the
/// steps.
pub fn merge_branch<S: MergeProgressSink>(
    kv: &mut MemoryKv,
    graph: &mut InMemoryGraph,
    wal: &mut MutationLog,
    tracker: &mut BranchReconciliationTracker,
    spec_paths: &SpeculativePathTracker,
    source_branch_hex: &str,
    target_branch_hex: &str,
    strategy: Option<MergeStrategy>,
    merge_id_hex: Option<&str>,
    outcomes: Option<&Vec<(String, RegenOutcome)>>,
    limits: &Vec<EdgeLimit>,
    sink: Option<&mut S>,
) -> (r: Result<(MergeId, MergeOutcome), AuthError>)
    ensures
        exists|q: MergeRequest| #[trigger]
            merge_requested(
                q,
                MergeState {
                    m: old(kv)@,
                    g: old(graph)@,
                    log: old(wal)@,
                    jobs: old(tracker)@,
                },
                r,
                MergeState {
                    m: final(kv)@,
                    g: final(graph)@,
                    log: final(wal)@,
                    jobs: final(tracker)@,
                },
            ) && q == (MergeRequest {
                source_hex: source_branch_hex@,
                target_hex: target_branch_hex@,
                merge_hex: given_text(merge_id_hex),
                strategy,
                outcomes: merge_edges::given_outcomes(outcomes),
                limits: limits@,
                counts: spec_paths@,
                now_ms: q.now_ms,
            }),
        sink matches Some(s) ==> (match r {
            Ok((_, o)) => final(s).heard() == s.heard() + numbered(event_views(o.progress@)),
            Err(_) => final(s).heard() == s.heard(),
        }),
{
    let now_ms = now_epoch_ms();
    let ghost q = MergeRequest {
        source_hex: source_branch_hex@,
        target_hex: target_branch_hex@,
        merge_hex: given_text(merge_id_hex),
        strategy,
        outcomes: merge_edges::given_outcomes(outcomes),
        limits: limits@,
        counts: spec_paths@,
        now_ms,
    };
    let ghost before = MergeState { m: kv@, g: graph@, log: wal@, jobs: tracker@ };
    let r = match sink {
        Some(s) => merge_branch_at(
            kv,
            graph,
            wal,
            tracker,
            spec_paths,
            source_branch_hex,
            target_branch_hex,
            strategy,
            merge_id_hex,
            outcomes,
            limits,
            s,
            now_ms,
        ),
        None => {
            let mut quiet = ProgressLog::new();
            merge_branch_at(
                kv,
                graph,
                wal,
                tracker,
                spec_paths,
                source_branch_hex,
                target_branch_hex,
                strategy,
                merge_id_hex,
                outcomes,
                limits,
                &mut quiet,
                now_ms,
            )
        },
    };
    assert(merge_requested(
        q,
        before,
        r,
        MergeState { m: kv@, g: graph@, log: wal@, jobs: tracker@ },
    ));
    r
}

/// A merge that was committed is on record as such; it holds no lock of its target, and neither
/// its context nor any of its edge batches is left.
pub proof fn law_committed_merge_is_closed(
    m: Map<Seq<char>, Seq<u8>>,
    target: BranchId,
    merge_id: MergeId,
    seq: u32,
)
    ensures
        saga::saga_at(merge_closed(m, target, merge_id), merge_id) == Some(SagaPhase::Committed),
        merge_resume::context_at(merge_closed(m, target, merge_id), merge_id) is None,
        merge_lock::lock_holder(merge_closed(m, target, merge_id), target) != Some(merge_id),
        !merge_closed(m, target, merge_id).contains_key(saga::payload_key(merge_id, seq)),
{
    let put = merge_resume::phase_put(m, false, merge_id, SagaPhase::Committed);
    let n = kv::without_prefix(put, saga::payload_prefix(merge_id)).remove(merge_resume::context_key(merge_id));
    let state = saga::state_key(merge_id);
    reveal_strlit("merge_ctx:");
    reveal_strlit("saga_state:");
    reveal_strlit("saga_payload:");
    keys::lemma_tagged_injective("merge_ctx:"@, merge_id.0, merge_id.0);
    keys::lemma_tagged_injective("saga_state:"@, merge_id.0, merge_id.0);
    keys::lemma_prefixes_differ(state, "saga_state:"@, merge_resume::context_key(merge_id), "merge_ctx:"@, 0);
    saga::lemma_state_key_apart(merge_id, target, merge_id);
    keys::lemma_tagged_rest_injective(
        "saga_payload:"@,
        merge_id.0,
        hex::decimal(seq as nat),
        merge_id.0,
        Seq::<char>::empty(),
    );
    assert(!text::begins_with(state, saga::payload_prefix(merge_id))) by {
        assert(saga::payload_prefix(merge_id)[5] == "saga_payload:"@[5]);
        assert(state[5] == "saga_state:"@[5]);
        if text::begins_with(state, saga::payload_prefix(merge_id)) {
            assert(state.subrange(0, saga::payload_prefix(merge_id).len() as int)[5] == state[5]);
        }
    }
    saga::law_phase_reads_back(m, merge_id, SagaPhase::Committed);
    assert(kv::value_at(n, state) == kv::value_at(put, state));
    if kv::value_at(n, merge_lock::lock_key(target)) != Some(merge_id.0@) {
        if merge_lock::lock_holder(n, target) == Some(merge_id) {
            saga::lemma_holder_bytes(n, target, merge_id);
        }
    }
}

} // verus!
