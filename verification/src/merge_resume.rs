//! Merges that were interrupted: what is kept of them, and how they are taken up again.

use crate::bytes;
use crate::bytes::le_u64_at;
use crate::cardinality::EdgeLimit;
use crate::graph::{GraphView, InMemoryGraph};
use crate::hex;
use crate::hex::{array16, decimal_text};
use crate::ids;
use crate::ids::{BranchId, IdentityId, MergeId, NodeRevisionId, bytes16};
use crate::keys;
use crate::keys::{read_binding, tagged_key};
use crate::kv;
use crate::kv::MemoryKv;
use crate::merge_classify;
use crate::merge_classify::{
    ClassifiedMergeIdentity, ClassifiedView, MergeStrategy, MergeWorkflowStatus, PhaseAResult,
    ReportView, phase_a_for_merge,
};
use crate::merge_edges;
use crate::merge_edges::{
    EdgeState, PhaseCResult, PhaseCView, RegenOutcome, phase_c_reconcile_edges_full,
};
use crate::merge_promote;
use crate::merge_promote::{PhaseBResult, phase_b_promote};
use crate::saga;
use crate::saga::{MergeSagaOrchestrator, SagaPhase};
use crate::text::{append_text, owned};
use crate::tracker::BranchReconciliationTracker;
use vstd::prelude::*;

verus! {

/// What a merge works on, kept so that it can be taken up again.
#[derive(Debug, Clone, Copy)]
pub struct MergeContext {
    pub merge_id: MergeId,
    pub ours_branch: BranchId,
    pub theirs_branch: BranchId,
    pub base_branch: BranchId,
    pub target_branch: BranchId,
    pub strategy: Option<MergeStrategy>,
}

/// `merge_ctx:{merge}`.
pub open spec fn context_key(merge_id: MergeId) -> Seq<char> {
    keys::tagged("merge_ctx:"@, merge_id.0@)
}

/// The byte that stands for a strategy.
pub open spec fn strategy_byte(s: Option<MergeStrategy>) -> u8 {
    match s {
        None => 0,
        Some(MergeStrategy::Ours) => 1,
        Some(MergeStrategy::Theirs) => 2,
    }
}

/// The strategy that a byte stands for.
pub open spec fn strategy_of(b: u8) -> Option<MergeStrategy> {
    if b == 1 {
        Some(MergeStrategy::Ours)
    } else if b == 2 {
        Some(MergeStrategy::Theirs)
    } else {
        None
    }
}

/// A context as it is kept: five ids and a byte.
pub open spec fn context_record(c: MergeContext) -> Seq<u8> {
    c.merge_id.0@ + c.ours_branch.0@ + c.theirs_branch.0@ + c.base_branch.0@ + c.target_branch.0@
        + seq![strategy_byte(c.strategy)]
}

/// The id at a place in a record.
pub open spec fn id_at(v: Seq<u8>, from: int) -> [u8; 16] {
    ids::array_of(v.subrange(from, from + 16))
}

/// The context that a record stands for.
pub open spec fn context_of(v: Seq<u8>) -> Option<MergeContext> {
    if v.len() < 81 {
        None
    } else {
        Some(
            MergeContext {
                merge_id: MergeId(id_at(v, 0)),
                ours_branch: BranchId(id_at(v, 16)),
                theirs_branch: BranchId(id_at(v, 32)),
                base_branch: BranchId(id_at(v, 48)),
                target_branch: BranchId(id_at(v, 64)),
                strategy: strategy_of(v[80]),
            },
        )
    }
}

/// The context that is kept for a merge.
pub open spec fn context_at(m: Map<Seq<char>, Seq<u8>>, merge_id: MergeId) -> Option<MergeContext> {
    match kv::value_at(m, context_key(merge_id)) {
        Some(v) => context_of(v),
        None => None,
    }
}

/// Reads the id at a place in a record.
fn read16(v: &Vec<u8>, from: usize) -> (r: [u8; 16])
    requires
        from + 16 <= v.len(),
    ensures
        r == id_at(v@, from as int),
{
    let mut part: Vec<u8> = Vec::new();
    let mut i: usize = 0;
    while i < 16
        invariant
            from + 16 <= v.len(),
            i <= 16,
            part@ == v@.subrange(from as int, from + i),
        decreases 16 - i,
    {
        part.push(v[from + i]);
        assert(part@ =~= v@.subrange(from as int, from + i + 1));
        i = i + 1;
    }
    let a = array16(&part);
    proof {
        ids::lemma_array_of(a);
    }
    a
}

/// Adds the bytes of an id.
fn push16(v: &mut Vec<u8>, id: &[u8; 16])
    ensures
        final(v)@ == old(v)@ + id@,
{
    let mut b = bytes16(id);
    v.append(&mut b);
}

impl MergeContext {
    /// Builds `merge_ctx:{merge}`.
    fn kv_key(merge_id: MergeId) -> (r: String)
        ensures
            r@ == context_key(merge_id),
    {
        tagged_key("merge_ctx:", &merge_id.0)
    }

    /// Keeps the context.
    pub fn persist(&self, kv: &mut MemoryKv)
        ensures
            final(kv)@ == old(kv)@.insert(context_key(self.merge_id), context_record(*self)),
    {
        let mut buf: Vec<u8> = Vec::new();
        push16(&mut buf, &self.merge_id.0);
        push16(&mut buf, &self.ours_branch.0);
        push16(&mut buf, &self.theirs_branch.0);
        push16(&mut buf, &self.base_branch.0);
        push16(&mut buf, &self.target_branch.0);
        let b: u8 = match self.strategy {
            None => 0,
            Some(MergeStrategy::Ours) => 1,
            Some(MergeStrategy::Theirs) => 2,
        };
        buf.push(b);
        assert(buf@ =~= context_record(*self));
        kv.set(Self::kv_key(self.merge_id).as_str(), buf);
    }

    /// Reads the context of a merge.
    pub fn load(kv: &MemoryKv, merge_id: MergeId) -> (r: Option<Self>)
        ensures
            r == context_at(kv@, merge_id),
    {
        let buf = match kv.get(Self::kv_key(merge_id).as_str()) {
            Some(v) => v,
            None => {
                return None;
            },
        };
        if buf.len() < 81 {
            return None;
        }
        let b: u8 = buf[80];
        let strategy = if b == 1 {
            Some(MergeStrategy::Ours)
        } else if b == 2 {
            Some(MergeStrategy::Theirs)
        } else {
            None
        };
        Some(
            MergeContext {
                merge_id: MergeId(read16(&buf, 0)),
                ours_branch: BranchId(read16(&buf, 16)),
                theirs_branch: BranchId(read16(&buf, 32)),
                base_branch: BranchId(read16(&buf, 48)),
                target_branch: BranchId(read16(&buf, 64)),
                strategy,
            },
        )
    }

    /// Forgets the context of a merge.
    pub fn remove(kv: &mut MemoryKv, merge_id: MergeId)
        ensures
            final(kv)@ == old(kv)@.remove(context_key(merge_id)),
    {
        kv.delete(Self::kv_key(merge_id).as_str());
    }
}

/// A context that was kept is read back, until it is forgotten; other merges keep theirs.
pub proof fn law_context_reads_back(
    m: Map<Seq<char>, Seq<u8>>,
    c: MergeContext,
    other: MergeId,
)
    ensures
        context_at(m.insert(context_key(c.merge_id), context_record(c)), c.merge_id) == Some(c),
        context_at(m.remove(context_key(c.merge_id)), c.merge_id) is None,
        other != c.merge_id ==> context_at(
            m.insert(context_key(c.merge_id), context_record(c)),
            other,
        ) == context_at(m, other),
{
    let v = context_record(c);
    assert(v.subrange(0, 16) =~= c.merge_id.0@);
    assert(v.subrange(16, 32) =~= c.ours_branch.0@);
    assert(v.subrange(32, 48) =~= c.theirs_branch.0@);
    assert(v.subrange(48, 64) =~= c.base_branch.0@);
    assert(v.subrange(64, 80) =~= c.target_branch.0@);
    ids::lemma_array_of(c.merge_id.0);
    ids::lemma_array_of(c.ours_branch.0);
    ids::lemma_array_of(c.theirs_branch.0);
    ids::lemma_array_of(c.base_branch.0);
    ids::lemma_array_of(c.target_branch.0);
    keys::lemma_tagged_injective("merge_ctx:"@, c.merge_id.0, other.0);
}

/// The number of a merge's reconciliation job: the first eight bytes of its id.
pub open spec fn job_of(merge_id: MergeId) -> u64 {
    bytes::le_value(merge_id.0@.subrange(0, 8)) as u64
}

/// Numbers the reconciliation job of a merge.
pub fn merge_reconciliation_job_id(merge_id: MergeId) -> (r: u64)
    ensures
        r == job_of(merge_id),
{
    let v = bytes16(&merge_id.0);
    le_u64_at(&v, 0)
}

/// The name of a phase.
pub open spec fn phase_label(phase: SagaPhase) -> Seq<char> {
    match phase {
        SagaPhase::Intent => "Intent"@,
        SagaPhase::Classifying => "Classifying"@,
        SagaPhase::Promoting => "Promoting"@,
        SagaPhase::EdgeBatch { seq } => "EdgeBatch:"@ + hex::decimal(seq as nat),
        SagaPhase::PointerSwap => "PointerSwap"@,
        SagaPhase::Committed => "Committed"@,
    }
}

/// Names a phase.
pub fn saga_phase_label(phase: &SagaPhase) -> (r: String)
    ensures
        r@ == phase_label(*phase),
{
    match phase {
        SagaPhase::Intent => owned("Intent"),
        SagaPhase::Classifying => owned("Classifying"),
        SagaPhase::Promoting => owned("Promoting"),
        SagaPhase::EdgeBatch { seq } => {
            let mut out = owned("EdgeBatch:");
            append_text(&mut out, decimal_text(*seq as u64).as_str());
            out
        },
        SagaPhase::PointerSwap => owned("PointerSwap"),
        SagaPhase::Committed => owned("Committed"),
    }
}

/// The jobs that branches wait for once a merge's edges were looked at: its own stays where edges
/// are still missing.
pub open spec fn jobs_after(
    jobs: Set<(BranchId, u64)>,
    target: BranchId,
    merge_id: MergeId,
    c: PhaseCView,
) -> Set<(BranchId, u64)> {
    let waiting = jobs.insert((target, job_of(merge_id)));
    if c.needs_regen.len() == 0 {
        waiting.remove((target, job_of(merge_id)))
    } else {
        waiting
    }
}

/// Runs the third phase; the target waits for the merge's job while edges are missing.
pub fn phase_c_reconcile_tracked(
    graph: &mut InMemoryGraph,
    kv: &MemoryKv,
    outcomes: Option<&Vec<(String, RegenOutcome)>>,
    target: BranchId,
    merge_id: MergeId,
    promoted: &Vec<(IdentityId, NodeRevisionId)>,
    classified: Option<&Vec<ClassifiedMergeIdentity>>,
    tracker: Option<&mut BranchReconciliationTracker>,
    limits: &Vec<EdgeLimit>,
) -> (r: PhaseCResult)
    ensures
        merge_edges::phase_c(
            old(graph)@,
            kv@,
            merge_edges::given_outcomes(outcomes),
            target,
            promoted@,
            merge_edges::given_classes(classified),
            limits@,
            EdgeState { g: final(graph)@, c: r@ },
        ),
        tracker matches Some(t) ==> final(t)@ == jobs_after(t@, target, merge_id, r@),
{
    let job = merge_reconciliation_job_id(merge_id);
    let pc = phase_c_reconcile_edges_full(
        graph,
        kv,
        outcomes,
        target,
        promoted,
        classified,
        limits,
    );
    if let Some(t) = tracker {
        t.register(target, job);
        if pc.needs_edge_regen.len() == 0 {
            t.on_job_complete(target, job);
        }
    }
    pc
}

/// What taking a merge up again came to.
#[derive(Debug, Clone)]
pub struct ResumeMergeOutcome {
    pub resumed_from_phase: String,
    pub phase_a: PhaseAResult,
    pub phase_b: PhaseBResult,
    pub phase_c: PhaseCResult,
}

/// What taking a merge up again holds.
pub struct ResumeView {
    pub label: Seq<char>,
    pub report: ReportView,
    pub classified: Seq<ClassifiedView>,
    pub promoted: Seq<(IdentityId, NodeRevisionId)>,
    pub orphaned: Seq<NodeRevisionId>,
    pub unresolved: Seq<ClassifiedView>,
    pub edges: PhaseCView,
}

impl View for ResumeMergeOutcome {
    type V = ResumeView;

    open spec fn view(&self) -> ResumeView {
        ResumeView {
            label: self.resumed_from_phase@,
            report: self.phase_a.report@,
            classified: merge_classify::classified_views(self.phase_a.classified@),
            promoted: self.phase_b.promoted@,
            orphaned: self.phase_b.orphaned_revisions@,
            unresolved: merge_classify::classified_views(self.phase_b.unresolved_conflicts@),
            edges: self.phase_c@,
        }
    }
}

/// The store once a phase is on record, where records are kept.
pub open spec fn phase_put(
    m: Map<Seq<char>, Seq<u8>>,
    loses: bool,
    merge_id: MergeId,
    phase: SagaPhase,
) -> Map<Seq<char>, Seq<u8>> {
    if loses {
        m
    } else {
        m.insert(saga::state_key(merge_id), saga::phase_record(phase))
    }
}

/// What a merge that is taken up again has to work with.
pub struct ResumeInput {
    pub ctx: MergeContext,
    pub merge_id: MergeId,
    pub loses: bool,
    pub outcomes: Option<Seq<(String, RegenOutcome)>>,
    pub limits: Seq<EdgeLimit>,
}

/// The identities of entries that the target binds, with what it binds them to.
pub open spec fn already_bound(
    m: Map<Seq<char>, Seq<u8>>,
    target: BranchId,
    classified: Seq<ClassifiedView>,
) -> Seq<(IdentityId, NodeRevisionId)>
    decreases classified.len(),
{
    if classified.len() == 0 {
        Seq::empty()
    } else {
        let front = already_bound(m, target, classified.drop_last());
        match keys::bound(m, target, classified.last().identity) {
            Some(r) => front.push((classified.last().identity, r)),
            None => front,
        }
    }
}

/// The first phase of a merge on a store.
pub open spec fn classified_for(
    x: ResumeInput,
    m: Map<Seq<char>, Seq<u8>>,
    g: GraphView,
    out: ResumeView,
) -> bool {
    merge_classify::phase_a_of_merge(
        g,
        m,
        x.merge_id,
        x.ctx.ours_branch,
        x.ctx.theirs_branch,
        x.ctx.target_branch,
        x.ctx.base_branch,
        out.report,
        out.classified,
    )
}

/// The third phase runs on a store and a graph, and the merge is committed.
pub open spec fn edges_then_commit(
    x: ResumeInput,
    m: Map<Seq<char>, Seq<u8>>,
    g: GraphView,
    out: ResumeView,
    m_after: Map<Seq<char>, Seq<u8>>,
    g_after: GraphView,
) -> bool {
    let m1 = phase_put(m, x.loses, x.merge_id, SagaPhase::EdgeBatch { seq: 0 });
    &&& merge_edges::phase_c(
        g,
        m1,
        x.outcomes,
        x.ctx.target_branch,
        out.promoted,
        out.classified,
        x.limits,
        EdgeState { g: g_after, c: out.edges },
    )
    &&& m_after == phase_put(m1, x.loses, x.merge_id, SagaPhase::Committed).remove(
        context_key(x.merge_id),
    )
}

/// The second and third phase run, and the merge is committed.
pub open spec fn promote_then_commit(
    x: ResumeInput,
    m: Map<Seq<char>, Seq<u8>>,
    g: GraphView,
    out: ResumeView,
    m_after: Map<Seq<char>, Seq<u8>>,
    g_after: GraphView,
) -> bool {
    let p = merge_promote::promoted_all(
        merge_promote::promotion_start(phase_put(m, x.loses, x.merge_id, SagaPhase::Promoting), g),
        x.ctx.target_branch,
        out.classified,
        x.ctx.strategy,
    );
    &&& out.promoted == p.promoted
    &&& out.orphaned == p.orphaned
    &&& out.unresolved == p.unresolved
    &&& edges_then_commit(x, p.m, p.g, out, m_after, g_after)
}

/// A merge runs from a phase to its end.
pub open spec fn resume_ran(
    x: ResumeInput,
    phase: SagaPhase,
    m: Map<Seq<char>, Seq<u8>>,
    g: GraphView,
    out: ResumeView,
    m_after: Map<Seq<char>, Seq<u8>>,
    g_after: GraphView,
) -> bool {
    &&& out.label == phase_label(phase)
    &&& match phase {
        SagaPhase::Committed => false,
        SagaPhase::Intent | SagaPhase::Classifying => {
            let m1 = phase_put(m, x.loses, x.merge_id, SagaPhase::Classifying);
            &&& classified_for(x, m1, g, out)
            &&& !(out.report.status == MergeWorkflowStatus::RequiresResolution
                && x.ctx.strategy is None)
            &&& promote_then_commit(x, m1, g, out, m_after, g_after)
        },
        SagaPhase::Promoting => {
            &&& classified_for(x, m, g, out)
            &&& promote_then_commit(x, m, g, out, m_after, g_after)
        },
        SagaPhase::EdgeBatch { .. } | SagaPhase::PointerSwap => {
            &&& classified_for(x, m, g, out)
            &&& out.promoted == already_bound(m, x.ctx.target_branch, out.classified)
            &&& out.orphaned == Seq::<NodeRevisionId>::empty()
            &&& out.unresolved == Seq::<ClassifiedView>::empty()
            &&& edges_then_commit(x, m, g, out, m_after, g_after)
        },
    }
}

/// A merge is not run to its end: there is no context or no phase on record, it was committed, or
/// it has conflicts and no strategy for them.
pub open spec fn resume_stopped(
    x: ResumeInput,
    phase: SagaPhase,
    m: Map<Seq<char>, Seq<u8>>,
    g: GraphView,
    m_after: Map<Seq<char>, Seq<u8>>,
    g_after: GraphView,
) -> bool {
    &&& g_after == g
    &&& match phase {
        SagaPhase::Committed => m_after == m,
        SagaPhase::Intent | SagaPhase::Classifying => {
            let m1 = phase_put(m, x.loses, x.merge_id, SagaPhase::Classifying);
            &&& m_after == m1
            &&& x.ctx.strategy is None
            &&& exists|out: ResumeView| #[trigger]
                classified_for(x, m1, g, out) && out.report.status
                    == MergeWorkflowStatus::RequiresResolution
        },
        _ => false,
    }
}

/// What taking a merge up again may come to.
pub open spec fn resumed(
    m: Map<Seq<char>, Seq<u8>>,
    g: GraphView,
    merge_id: MergeId,
    loses: bool,
    outcomes: Option<Seq<(String, RegenOutcome)>>,
    limits: Seq<EdgeLimit>,
    r: Option<ResumeView>,
    m_after: Map<Seq<char>, Seq<u8>>,
    g_after: GraphView,
) -> bool {
    match (context_at(m, merge_id), saga::saga_at(m, merge_id)) {
        (Some(ctx), Some(phase)) => {
            let x = ResumeInput { ctx, merge_id, loses, outcomes, limits };
            match r {
                Some(out) => resume_ran(x, phase, m, g, out, m_after, g_after),
                None => resume_stopped(x, phase, m, g, m_after, g_after),
            }
        },
        _ => r is None && m_after == m && g_after == g,
    }
}

/// Reads what the target binds the classified identities to.
fn bound_on_target(
    kv: &MemoryKv,
    target: BranchId,
    classified: &Vec<ClassifiedMergeIdentity>,
) -> (r: Vec<(IdentityId, NodeRevisionId)>)
    ensures
        r@ == already_bound(kv@, target, merge_classify::classified_views(classified@)),
{
    let ghost views = merge_classify::classified_views(classified@);
    let mut out: Vec<(IdentityId, NodeRevisionId)> = Vec::new();
    let mut i: usize = 0;
    assert(views.take(0) =~= Seq::empty());
    while i < classified.len()
        invariant
            i <= classified.len(),
            views == merge_classify::classified_views(classified@),
            out@ == already_bound(kv@, target, views.take(i as int)),
        decreases classified.len() - i,
    {
        proof {
            assert(views.take(i + 1).drop_last() =~= views.take(i as int));
            assert(views.take(i + 1).last() == classified@[i as int]@);
        }
        let id = classified[i].identity_id;
        if let Some(rev) = read_binding(kv, target, id) {
            out.push((id, rev));
        }
        i = i + 1;
    }
    assert(views.take(views.len() as int) =~= views);
    out
}

/// What a resumed merge leaves the target waiting for.
pub open spec fn resumed_jobs(
    jobs: Set<(BranchId, u64)>,
    m: Map<Seq<char>, Seq<u8>>,
    merge_id: MergeId,
    r: Option<ResumeView>,
) -> Set<(BranchId, u64)> {
    match (r, context_at(m, merge_id)) {
        (Some(out), Some(ctx)) => jobs_after(jobs, ctx.target_branch, merge_id, out.edges),
        _ => jobs,
    }
}

/// What an optional outcome holds.
pub open spec fn outcome_view(r: Option<ResumeMergeOutcome>) -> Option<ResumeView> {
    match r {
        Some(o) => Some(o@),
        None => None,
    }
}

/// Takes a merge up again from the phase that is on record.
pub fn resume_merge(
    graph: &mut InMemoryGraph,
    kv: &mut MemoryKv,
    outcomes: Option<&Vec<(String, RegenOutcome)>>,
    merge_id: MergeId,
    saga: &MergeSagaOrchestrator,
    tracker: Option<&mut BranchReconciliationTracker>,
    limits: &Vec<EdgeLimit>,
) -> (r: Option<ResumeMergeOutcome>)
    ensures
        resumed(
            old(kv)@,
            old(graph)@,
            merge_id,
            saga.loses(),
            merge_edges::given_outcomes(outcomes),
            limits@,
            outcome_view(r),
            final(kv)@,
            final(graph)@,
        ),
        tracker matches Some(t) ==> final(t)@ == resumed_jobs(
            t@,
            old(kv)@,
            merge_id,
            outcome_view(r),
        ),
{
    let ctx = match MergeContext::load(kv, merge_id) {
        Some(c) => c,
        None => {
            return None;
        },
    };
    let phase = match saga.load(kv, merge_id) {
        Some(p) => p,
        None => {
            return None;
        },
    };
    let ghost x = ResumeInput {
        ctx,
        merge_id,
        loses: saga.loses(),
        outcomes: merge_edges::given_outcomes(outcomes),
        limits: limits@,
    };
    let label = saga_phase_label(&phase);
    let early = match phase {
        SagaPhase::Committed => {
            return None;
        },
        SagaPhase::Intent => true,
        SagaPhase::Classifying => true,
        _ => false,
    };
    if early {
        saga.persist(kv, merge_id, SagaPhase::Classifying);
    }
    let ghost m1 = kv@;
    let ghost g1 = graph@;
    let pa = phase_a_for_merge(
        graph,
        kv,
        merge_id,
        ctx.ours_branch,
        ctx.theirs_branch,
        ctx.target_branch,
        ctx.base_branch,
    );
    let ghost seen = ResumeView {
        label: label@,
        report: pa.report@,
        classified: merge_classify::classified_views(pa.classified@),
        promoted: Seq::empty(),
        orphaned: Seq::empty(),
        unresolved: Seq::empty(),
        edges: merge_edges::phase_c_start(),
    };
    assert(classified_for(x, m1, g1, seen));
    if early && pa.report.status == MergeWorkflowStatus::RequiresResolution
        && ctx.strategy.is_none() {
        proof {
            let m = phase_put(old(kv)@, x.loses, merge_id, SagaPhase::Classifying);
            assert(m == m1);
            assert(classified_for(x, m, old(graph)@, seen));
            assert(resume_stopped(x, phase, old(kv)@, old(graph)@, kv@, graph@));
        }
        return None;
    }
    let promoting = match phase {
        SagaPhase::EdgeBatch { .. } => false,
        SagaPhase::PointerSwap => false,
        _ => true,
    };
    let pb = if promoting {
        saga.persist(kv, merge_id, SagaPhase::Promoting);
        phase_b_promote(kv, graph, ctx.target_branch, &pa.classified, ctx.strategy)
    } else {
        let mut none = PhaseBResult::new();
        none.promoted = bound_on_target(kv, ctx.target_branch, &pa.classified);
        none
    };
    let ghost m2 = kv@;
    let ghost g2 = graph@;
    saga.persist(kv, merge_id, SagaPhase::EdgeBatch { seq: 0 });
    let pc = phase_c_reconcile_tracked(
        graph,
        kv,
        outcomes,
        ctx.target_branch,
        merge_id,
        &pb.promoted,
        Some(&pa.classified),
        tracker,
        limits,
    );
    saga.persist(kv, merge_id, SagaPhase::Committed);
    MergeContext::remove(kv, merge_id);
    let out = ResumeMergeOutcome {
        resumed_from_phase: label,
        phase_a: pa,
        phase_b: pb,
        phase_c: pc,
    };
    proof {
        let v = out@;
        assert(classified_for(x, m1, g1, v));
        assert(edges_then_commit(x, m2, g2, v, kv@, graph@));
        if promoting {
            assert(promote_then_commit(x, m1, g1, v, kv@, graph@));
        } else {
            assert(v.orphaned =~= Seq::<NodeRevisionId>::empty());
            assert(v.unresolved =~= Seq::<ClassifiedView>::empty());
        }
        assert(resume_ran(x, phase, old(kv)@, old(graph)@, v, kv@, graph@));
    }
    Some(out)
}

/// A resumed merge is on record as committed, where records are kept, and its context is forgotten.
pub proof fn law_resumed_merge_is_committed(
    m: Map<Seq<char>, Seq<u8>>,
    g: GraphView,
    merge_id: MergeId,
    outcomes: Option<Seq<(String, RegenOutcome)>>,
    limits: Seq<EdgeLimit>,
    out: ResumeView,
    m_after: Map<Seq<char>, Seq<u8>>,
    g_after: GraphView,
)
    requires
        resumed(m, g, merge_id, false, outcomes, limits, Some(out), m_after, g_after),
    ensures
        saga::saga_at(m_after, merge_id) == Some(SagaPhase::Committed),
        context_at(m_after, merge_id) is None,
{
    let ctx = context_at(m, merge_id)->0;
    let phase = saga::saga_at(m, merge_id)->0;
    let x = ResumeInput { ctx, merge_id, loses: false, outcomes, limits };
    assert(resume_ran(x, phase, m, g, out, m_after, g_after));
    reveal_strlit("merge_ctx:");
    reveal_strlit("saga_state:");
    keys::lemma_tagged_injective("merge_ctx:"@, merge_id.0, merge_id.0);
    keys::lemma_tagged_injective("saga_state:"@, merge_id.0, merge_id.0);
    keys::lemma_prefixes_differ(
        saga::state_key(merge_id),
        "saga_state:"@,
        context_key(merge_id),
        "merge_ctx:"@,
        0,
    );
    assert(exists|m1: Map<Seq<char>, Seq<u8>>|
        m_after == #[trigger] phase_put(m1, false, merge_id, SagaPhase::Committed).remove(
            context_key(merge_id),
        ));
    let m1 = choose|m1: Map<Seq<char>, Seq<u8>>|
        m_after == #[trigger] phase_put(m1, false, merge_id, SagaPhase::Committed).remove(
            context_key(merge_id),
        );
    saga::law_phase_reads_back(m1, merge_id, SagaPhase::Committed);
}

} // verus!
