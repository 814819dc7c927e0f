//! Starting up after an interruption: merges that still hold their lock are taken up again, the
//! others are rolled back.

use crate::cardinality::EdgeLimit;
use crate::graph::{GraphView, InMemoryGraph};
use crate::ids;
use crate::ids::{BranchId, MergeId, NodeRevisionId};
use crate::kv;
use crate::kv::MemoryKv;
use crate::merge_control;
use crate::merge_control::MergeControl;
use crate::merge_edges::RegenOutcome;
use crate::merge_gate;
use crate::merge_gate::MergeRecoveryGate;
use crate::merge_lock;
use crate::merge_lock::{merge_lock_holder, release_merge_lock};
use crate::merge_resume;
use crate::merge_resume::{MergeContext, ResumeView, resume_merge};
use crate::saga;
use crate::saga::{MergeSagaOrchestrator, SagaPhase, merge_id_from_saga_key};
use crate::text;
use crate::tracker::BranchReconciliationTracker;
use crate::vector_store::VectorChunkStore;
use vstd::prelude::*;

verus! {

/// What became of one merge.
#[derive(Debug, Clone)]
pub struct MergeRecoveryEntry {
    pub merge_id: MergeId,
    pub resumed_from_phase: Option<String>,
    pub compensated: bool,
    pub edges_regenerated: usize,
    pub dangling_edges_removed: usize,
    pub signature_reresolved: usize,
    pub cardinality_violations: Vec<String>,
}

/// What became of the merges.
#[derive(Debug, Clone, Default)]
pub struct MergeRecoveryReport {
    pub resumed: usize,
    pub compensated: usize,
    pub entries: Vec<MergeRecoveryEntry>,
}

/// What an entry holds.
#[verifier::ext_equal]
pub struct RecoveryEntryView {
    pub merge_id: MergeId,
    pub from: Option<Seq<char>>,
    pub compensated: bool,
    pub regenerated: usize,
    pub dangling: usize,
    pub reresolved: usize,
    pub violations: Seq<Seq<char>>,
}

impl View for MergeRecoveryEntry {
    type V = RecoveryEntryView;

    open spec fn view(&self) -> RecoveryEntryView {
        RecoveryEntryView {
            merge_id: self.merge_id,
            from: match self.resumed_from_phase {
                Some(s) => Some(s@),
                None => None,
            },
            compensated: self.compensated,
            regenerated: self.edges_regenerated,
            dangling: self.dangling_edges_removed,
            reresolved: self.signature_reresolved,
            violations: text::texts(self.cardinality_violations@),
        }
    }
}

/// What entries hold.
pub open spec fn recovery_views(v: Seq<MergeRecoveryEntry>) -> Seq<RecoveryEntryView> {
    v.map_values(|e: MergeRecoveryEntry| e@)
}

/// The store, the graph, the jobs that branches wait for, and the account so far.
pub struct RecoveryState {
    pub m: Map<Seq<char>, Seq<u8>>,
    pub g: GraphView,
    pub jobs: Set<(BranchId, u64)>,
    pub resumed: nat,
    pub compensated: nat,
    pub entries: Seq<RecoveryEntryView>,
}

/// What recovery has to work with.
pub struct RecoveryEnv {
    pub loses: bool,
    pub outcomes: Seq<(String, RegenOutcome)>,
    pub limits: Seq<EdgeLimit>,
}

/// The account of a merge that was taken up again.
pub open spec fn resumed_entry(merge_id: MergeId, out: ResumeView) -> RecoveryEntryView {
    RecoveryEntryView {
        merge_id,
        from: Some(out.label),
        compensated: false,
        regenerated: out.edges.regenerated,
        dangling: out.edges.dangling,
        reresolved: out.edges.reresolved,
        violations: out.edges.violations,
    }
}

/// The account of a merge that was rolled back.
pub open spec fn rolled_back_entry(merge_id: MergeId) -> RecoveryEntryView {
    RecoveryEntryView {
        merge_id,
        from: None,
        compensated: true,
        regenerated: 0,
        dangling: 0,
        reresolved: 0,
        violations: Seq::empty(),
    }
}

/// The store once a merge gave its lock on a branch back, if it held it.
pub open spec fn lock_given_back(
    m: Map<Seq<char>, Seq<u8>>,
    branch: BranchId,
    merge_id: MergeId,
) -> Map<Seq<char>, Seq<u8>> {
    if kv::value_at(m, merge_lock::lock_key(branch)) == Some(merge_id.0@) {
        merge_lock::lock_released(m, branch, merge_id)
    } else {
        m
    }
}

/// A merge that holds its target is taken up again; one that does not is left as it is.
pub open spec fn attempted(
    env: RecoveryEnv,
    s: RecoveryState,
    merge_id: MergeId,
    ctx: MergeContext,
    r: Option<ResumeView>,
    m1: Map<Seq<char>, Seq<u8>>,
    g1: GraphView,
) -> bool {
    if merge_lock::lock_holder(s.m, ctx.target_branch) == Some(merge_id) {
        merge_resume::resumed(s.m, s.g, merge_id, env.loses, Some(env.outcomes), env.limits, r, m1, g1)
    } else {
        r is None && m1 == s.m && g1 == s.g
    }
}

/// A merge is rolled back; queries on its target are held off meanwhile.
pub open spec fn rolled_back(
    m: Map<Seq<char>, Seq<u8>>,
    g: GraphView,
    merge_id: MergeId,
    target: BranchId,
    m_after: Map<Seq<char>, Seq<u8>>,
    g_after: GraphView,
) -> bool {
    exists|m2: Map<Seq<char>, Seq<u8>>| #[trigger]
        merge_control::cancelled(
            m.insert(merge_gate::block_key(target), seq![1u8]),
            g,
            merge_id,
            target,
            Seq::<NodeRevisionId>::empty(),
            m2,
            g_after,
        ) && m_after == saga::saga_purged(m2, merge_id).remove(merge_resume::context_key(merge_id)).remove(
            merge_gate::block_key(target),
        )
}

/// One merge with a context is settled.
pub open spec fn settled(
    env: RecoveryEnv,
    s: RecoveryState,
    merge_id: MergeId,
    ctx: MergeContext,
    t: RecoveryState,
) -> bool {
    exists|r: Option<ResumeView>, m1: Map<Seq<char>, Seq<u8>>, g1: GraphView| #[trigger]
        attempted(env, s, merge_id, ctx, r, m1, g1) && match r {
            Some(out) => t == (RecoveryState {
                m: lock_given_back(m1, ctx.target_branch, merge_id),
                g: g1,
                jobs: merge_resume::resumed_jobs(s.jobs, s.m, merge_id, r),
                resumed: s.resumed + 1,
                entries: s.entries.push(resumed_entry(merge_id, out)),
                ..s
            }),
            None => rolled_back(m1, g1, merge_id, ctx.target_branch, t.m, t.g) && t == (
            RecoveryState {
                m: t.m,
                g: t.g,
                compensated: s.compensated + 1,
                entries: s.entries.push(rolled_back_entry(merge_id)),
                ..s
            }),
        }
}

/// What is done on account of one saga on record.
pub open spec fn recovery_step(
    env: RecoveryEnv,
    row: (String, Vec<u8>),
    s: RecoveryState,
    t: RecoveryState,
) -> bool {
    if row.1@.len() > 0 && row.1@[0] == 6 {
        t == s
    } else {
        match saga::saga_merge(row.0@) {
            None => t == (RecoveryState {
                m: s.m.remove(row.0@),
                compensated: s.compensated + 1,
                ..s
            }),
            Some(b) => {
                let merge_id = MergeId(ids::array_of(b));
                match merge_resume::context_at(s.m, merge_id) {
                    None => t == (RecoveryState {
                        m: saga::saga_purged(s.m, merge_id),
                        compensated: s.compensated + 1,
                        ..s
                    }),
                    Some(ctx) => settled(env, s, merge_id, ctx, t),
                }
            },
        }
    }
}

/// What is done on account of sagas on record, in order.
pub open spec fn recovered(
    env: RecoveryEnv,
    rows: Seq<(String, Vec<u8>)>,
    s: RecoveryState,
    t: RecoveryState,
) -> bool
    decreases rows.len(),
{
    if rows.len() == 0 {
        t == s
    } else {
        exists|mid: RecoveryState|
            recovered(env, rows.drop_last(), s, mid) && #[trigger] recovery_step(
                env,
                rows.last(),
                mid,
                t,
            )
    }
}

/// The state once an entry is accounted for.
pub open spec fn accounted(
    s: RecoveryState,
    m: Map<Seq<char>, Seq<u8>>,
    g: GraphView,
    jobs: Set<(BranchId, u64)>,
    e: RecoveryEntryView,
) -> RecoveryState {
    RecoveryState {
        m,
        g,
        jobs,
        resumed: if e.compensated {
            s.resumed
        } else {
            s.resumed + 1
        },
        compensated: if e.compensated {
            s.compensated + 1
        } else {
            s.compensated
        },
        entries: s.entries.push(e),
    }
}

/// Settles one merge with a context.
fn settle<S: VectorChunkStore>(
    graph: &mut InMemoryGraph,
    kv: &mut MemoryKv,
    outcomes: &Vec<(String, RegenOutcome)>,
    saga: &MergeSagaOrchestrator,
    vector: &mut S,
    tracker: &mut BranchReconciliationTracker,
    limits: &Vec<EdgeLimit>,
    merge_id: MergeId,
    ctx: MergeContext,
) -> (r: MergeRecoveryEntry)
    requires
        merge_resume::context_at(old(kv)@, merge_id) == Some(ctx),
    ensures
        final(vector).chunks() == old(vector).chunks(),
        final(vector).asked() == old(vector).asked(),
        forall|s: RecoveryState|
            s.m == old(kv)@ && s.g == old(graph)@ && s.jobs == old(tracker)@ ==> settled(
                RecoveryEnv { loses: saga.loses(), outcomes: outcomes@, limits: limits@ },
                s,
                merge_id,
                ctx,
                #[trigger] accounted(s, final(kv)@, final(graph)@, final(tracker)@, r@),
            ),
{
    let ghost env = RecoveryEnv { loses: saga.loses(), outcomes: outcomes@, limits: limits@ };
    let ghost m0 = kv@;
    let ghost g0 = graph@;
    let ghost j0 = tracker@;
    let holds = match merge_lock_holder(kv, ctx.target_branch) {
        Some(h) => h == merge_id,
        None => false,
    };
    if holds {
        let resumed_merge = resume_merge(
            graph,
            kv,
            Some(outcomes),
            merge_id,
            saga,
            Some(&mut *tracker),
            limits,
        );
        let ghost r1 = merge_resume::outcome_view(resumed_merge);
        let ghost m1 = kv@;
        let ghost g1 = graph@;
        if let Some(out) = resumed_merge {
            let ghost ov = out@;
            let _ = release_merge_lock(kv, ctx.target_branch, merge_id);
            let entry = MergeRecoveryEntry {
                merge_id,
                resumed_from_phase: Some(out.resumed_from_phase),
                compensated: false,
                edges_regenerated: out.phase_c.edges_regenerated,
                dangling_edges_removed: out.phase_c.dangling_edges_removed,
                signature_reresolved: out.phase_c.signature_reresolved,
                cardinality_violations: out.phase_c.cardinality_violations,
            };
            proof {
                assert(entry@ =~= resumed_entry(merge_id, ov));
                assert forall|s: RecoveryState|
                    s.m == m0 && s.g == g0 && s.jobs == j0 implies settled(
                    env,
                    s,
                    merge_id,
                    ctx,
                    #[trigger] accounted(s, kv@, graph@, tracker@, entry@),
                ) by {
                    assert(attempted(env, s, merge_id, ctx, r1, m1, g1));
                }
            }
            return entry;
        }
        proof {
            assert forall|s: RecoveryState| s.m == m0 && s.g == g0 && s.jobs == j0 implies #[trigger] attempted(
                env,
                s,
                merge_id,
                ctx,
                None,
                m1,
                g1,
            ) by {}
        }
    }
    let ghost m1 = kv@;
    let ghost g1 = graph@;
    let gate = MergeRecoveryGate::new();
    gate.begin_rollback(kv, ctx.target_branch);
    let none: Vec<NodeRevisionId> = Vec::new();
    assert(none@ =~= Seq::<NodeRevisionId>::empty());
    let ghost blocked = kv@;
    let _ = MergeControl::new().cancel_merge(
        kv,
        merge_id,
        ctx.target_branch,
        graph,
        vector,
        None,
        &none,
    );
    let ghost m2 = kv@;
    saga.purge_merge_saga_state(kv, merge_id);
    MergeContext::remove(kv, merge_id);
    gate.end_rollback(kv, ctx.target_branch);
    let entry = MergeRecoveryEntry {
        merge_id,
        resumed_from_phase: None,
        compensated: true,
        edges_regenerated: 0,
        dangling_edges_removed: 0,
        signature_reresolved: 0,
        cardinality_violations: Vec::new(),
    };
    proof {
        assert(entry@ =~= rolled_back_entry(merge_id));
        assert(merge_control::cancelled(
            m1.insert(merge_gate::block_key(ctx.target_branch), seq![1u8]),
            g1,
            merge_id,
            ctx.target_branch,
            Seq::<NodeRevisionId>::empty(),
            m2,
            graph@,
        ));
        assert(rolled_back(m1, g1, merge_id, ctx.target_branch, kv@, graph@));
        assert forall|s: RecoveryState|
            s.m == m0 && s.g == g0 && s.jobs == j0 implies settled(
            env,
            s,
            merge_id,
            ctx,
            #[trigger] accounted(s, kv@, graph@, tracker@, entry@),
        ) by {
            assert(attempted(env, s, merge_id, ctx, None, m1, g1));
        }
    }
    entry
}

/// The state that a report stands for.
pub open spec fn state_of(
    m: Map<Seq<char>, Seq<u8>>,
    g: GraphView,
    jobs: Set<(BranchId, u64)>,
    report: MergeRecoveryReport,
) -> RecoveryState {
    RecoveryState {
        m,
        g,
        jobs,
        resumed: report.resumed as nat,
        compensated: report.compensated as nat,
        entries: recovery_views(report.entries@),
    }
}

/// Every merge on record is settled, from one store, graph and set of jobs to another.
pub open spec fn all_settled(
    env: RecoveryEnv,
    from: (Map<Seq<char>, Seq<u8>>, GraphView, Set<(BranchId, u64)>),
    to: (Map<Seq<char>, Seq<u8>>, GraphView, Set<(BranchId, u64)>),
    report: MergeRecoveryReport,
) -> bool {
    exists|rows: Seq<(String, Vec<u8>)>| #[trigger]
        kv::scanned(from.0, "saga_state:"@, rows) && recovered(
            env,
            rows,
            RecoveryState {
                m: from.0,
                g: from.1,
                jobs: from.2,
                resumed: 0,
                compensated: 0,
                entries: Seq::empty(),
            },
            state_of(to.0, to.1, to.2, report),
        )
}

/// Every merge on record is settled, and nobody keeps the jobs that branches wait for.
pub open spec fn settled_untold(
    env: RecoveryEnv,
    from: (Map<Seq<char>, Seq<u8>>, GraphView),
    to: (Map<Seq<char>, Seq<u8>>, GraphView),
    report: MergeRecoveryReport,
) -> bool {
    exists|jobs: Set<(BranchId, u64)>| #[trigger]
        all_settled(env, (from.0, from.1, Set::empty()), (to.0, to.1, jobs), report)
}

/// Settles every merge that is on record and not committed: one that still holds the lock of its
/// target is taken up again, any other is rolled back.
pub fn recover_inflight_merges<S: VectorChunkStore>(
    graph: &mut InMemoryGraph,
    kv: &mut MemoryKv,
    outcomes: &Vec<(String, RegenOutcome)>,
    saga: &MergeSagaOrchestrator,
    vector: &mut S,
    tracker: Option<&mut BranchReconciliationTracker>,
    limits: &Vec<EdgeLimit>,
) -> (r: MergeRecoveryReport)
    ensures
        final(vector).chunks() == old(vector).chunks(),
        final(vector).asked() == old(vector).asked(),
        tracker matches Some(t) ==> all_settled(
            RecoveryEnv { loses: saga.loses(), outcomes: outcomes@, limits: limits@ },
            (old(kv)@, old(graph)@, t@),
            (final(kv)@, final(graph)@, final(t)@),
            r,
        ),
        tracker is None ==> settled_untold(
            RecoveryEnv { loses: saga.loses(), outcomes: outcomes@, limits: limits@ },
            (old(kv)@, old(graph)@),
            (final(kv)@, final(graph)@),
            r,
        ),
{
    match tracker {
        Some(t) => settle_all(graph, kv, outcomes, saga, vector, t, limits),
        None => settle_untold(graph, kv, outcomes, saga, vector, limits),
    }
}

/// Settles every merge that is on record and not committed, with nobody to keep the jobs.
fn settle_untold<S: VectorChunkStore>(
    graph: &mut InMemoryGraph,
    kv: &mut MemoryKv,
    outcomes: &Vec<(String, RegenOutcome)>,
    saga: &MergeSagaOrchestrator,
    vector: &mut S,
    limits: &Vec<EdgeLimit>,
) -> (r: MergeRecoveryReport)
    ensures
        final(vector).chunks() == old(vector).chunks(),
        final(vector).asked() == old(vector).asked(),
        settled_untold(
            RecoveryEnv { loses: saga.loses(), outcomes: outcomes@, limits: limits@ },
            (old(kv)@, old(graph)@),
            (final(kv)@, final(graph)@),
            r,
        ),
{
    let mut untold = BranchReconciliationTracker::new();
    let ghost env = RecoveryEnv { loses: saga.loses(), outcomes: outcomes@, limits: limits@ };
    let ghost m0 = kv@;
    let ghost g0 = graph@;
    let report = settle_all(graph, kv, outcomes, saga, vector, &mut untold, limits);
    proof {
        let to = (kv@, graph@);
        assert(all_settled(env, (m0, g0, Set::empty()), (to.0, to.1, untold@), report));
        assert(settled_untold(env, (m0, g0), to, report));
    }
    report
}

/// Settles every merge that is on record and not committed.
fn settle_all<S: VectorChunkStore>(
    graph: &mut InMemoryGraph,
    kv: &mut MemoryKv,
    outcomes: &Vec<(String, RegenOutcome)>,
    saga: &MergeSagaOrchestrator,
    vector: &mut S,
    tracker: &mut BranchReconciliationTracker,
    limits: &Vec<EdgeLimit>,
) -> (r: MergeRecoveryReport)
    ensures
        final(vector).chunks() == old(vector).chunks(),
        final(vector).asked() == old(vector).asked(),
        all_settled(
            RecoveryEnv { loses: saga.loses(), outcomes: outcomes@, limits: limits@ },
            (old(kv)@, old(graph)@, old(tracker)@),
            (final(kv)@, final(graph)@, final(tracker)@),
            r,
        ),
{
    let ghost env = RecoveryEnv { loses: saga.loses(), outcomes: outcomes@, limits: limits@ };
    let ghost start = RecoveryState {
        m: kv@,
        g: graph@,
        jobs: tracker@,
        resumed: 0,
        compensated: 0,
        entries: Seq::empty(),
    };
    let mut report = MergeRecoveryReport { resumed: 0, compensated: 0, entries: Vec::new() };
    let rows = kv.scan_prefix("saga_state:");
    let mut i: usize = 0;
    proof {
        assert(rows@.take(0) =~= Seq::<(String, Vec<u8>)>::empty());
        assert(recovery_views(report.entries@) =~= Seq::empty());
    }
    while i < rows.len()
        invariant
            i <= rows.len(),
            report.resumed <= i,
            report.compensated <= i,
            env == (RecoveryEnv { loses: saga.loses(), outcomes: outcomes@, limits: limits@ }),
            vector.chunks() == old(vector).chunks(),
            vector.asked() == old(vector).asked(),
            recovered(env, rows@.take(i as int), start, state_of(kv@, graph@, tracker@, report)),
        decreases rows.len() - i,
    {
        let ghost mid = state_of(kv@, graph@, tracker@, report);
        let ghost e0 = recovery_views(report.entries@);
        proof {
            assert(rows@.take(i + 1).drop_last() =~= rows@.take(i as int));
            assert(rows@.take(i + 1).last() == rows@[i as int]);
        }
        let committed = rows[i].1.len() > 0 && rows[i].1[0] == 6;
        if !committed {
            match merge_id_from_saga_key(rows[i].0.as_str()) {
                None => {
                    kv.delete(rows[i].0.as_str());
                    report.compensated = report.compensated + 1;
                },
                Some(merge_id) => {
                    proof {
                        ids::lemma_array_of(merge_id.0);
                    }
                    match MergeContext::load(kv, merge_id) {
                        None => {
                            saga.purge_merge_saga_state(kv, merge_id);
                            report.compensated = report.compensated + 1;
                        },
                        Some(ctx) => {
                            let entry = settle(
                                graph,
                                kv,
                                outcomes,
                                saga,
                                vector,
                                tracker,
                                limits,
                                merge_id,
                                ctx,
                            );
                            let ghost ev = entry@;
                            if entry.compensated {
                                report.compensated = report.compensated + 1;
                            } else {
                                report.resumed = report.resumed + 1;
                            }
                            report.entries.push(entry);
                            proof {
                                assert(recovery_views(report.entries@) =~= e0.push(ev));
                                let t = state_of(kv@, graph@, tracker@, report);
                                assert(t == accounted(mid, kv@, graph@, tracker@, ev));
                                assert(settled(env, mid, merge_id, ctx, t));
                            }
                        },
                    }
                },
            }
        }
        proof {
            let t = state_of(kv@, graph@, tracker@, report);
            assert(recovery_step(env, rows@[i as int], mid, t));
        }
        i = i + 1;
    }
    assert(rows@.take(rows@.len() as int) =~= rows@);
    report
}

/// Once a merge is settled, its saga is committed or gone, its context is gone, and its target is
/// open to queries if it was rolled back.
pub proof fn law_settled_merge(
    env: RecoveryEnv,
    s: RecoveryState,
    merge_id: MergeId,
    ctx: MergeContext,
    t: RecoveryState,
)
    requires
        !env.loses,
        merge_resume::context_at(s.m, merge_id) == Some(ctx),
        settled(env, s, merge_id, ctx, t),
    ensures
        saga::saga_at(t.m, merge_id) is None || saga::saga_at(t.m, merge_id) == Some(SagaPhase::Committed),
        merge_resume::context_at(t.m, merge_id) is None,
        t.compensated > s.compensated ==> !merge_gate::query_blocked(t.m, ctx.target_branch),
{
    let target = ctx.target_branch;
    let (r, m1, g1) = choose|r: Option<ResumeView>, m1: Map<Seq<char>, Seq<u8>>, g1: GraphView|
        #[trigger]
        attempted(env, s, merge_id, ctx, r, m1, g1) && match r {
            Some(out) => t == (RecoveryState {
                m: lock_given_back(m1, ctx.target_branch, merge_id),
                g: g1,
                jobs: merge_resume::resumed_jobs(s.jobs, s.m, merge_id, r),
                resumed: s.resumed + 1,
                entries: s.entries.push(resumed_entry(merge_id, out)),
                ..s
            }),
            None => rolled_back(m1, g1, merge_id, ctx.target_branch, t.m, t.g) && t == (
            RecoveryState {
                m: t.m,
                g: t.g,
                compensated: s.compensated + 1,
                entries: s.entries.push(rolled_back_entry(merge_id)),
                ..s
            }),
        };
    saga::lemma_state_key_apart(merge_id, target, merge_id);
    if let Some(out) = r {
        merge_resume::law_resumed_merge_is_committed(
            s.m,
            s.g,
            merge_id,
            Some(env.outcomes),
            env.limits,
            out,
            m1,
            g1,
        );
    }
}

} // verus!
