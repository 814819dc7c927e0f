//! Bringing log, sagas and merges into agreement, at start-up and from time to time.

use crate::cardinality::EdgeLimit;
use crate::graph::InMemoryGraph;
use crate::hex;
use crate::hex::decimal_text;
use crate::kv::MemoryKv;
use crate::merge_edges::RegenOutcome;
use crate::merge_recover;
use crate::merge_recover::{MergeRecoveryReport, RecoveryEnv, recover_inflight_merges};
use crate::saga;
use crate::saga::MergeSagaOrchestrator;
use crate::text;
use crate::text::{append_text, owned};
use crate::vector_store::VectorChunkStore;
use crate::wal;
use crate::wal::{MutationIndex, MutationLog};
use vstd::prelude::*;

verus! {

/// What a look at the graph came to: whether it is in order, and what there is to say of it.
#[derive(Debug, Clone, PartialEq, Eq, Default)]
pub struct ConsistencyFinding {
    pub clean: bool,
    pub summary: String,
}

/// What was found and done.
#[derive(Debug, Clone, PartialEq, Eq, Default)]
pub struct RecoveryReport {
    pub mutation_index_entries: usize,
    pub in_flight_wal_records: usize,
    pub sagas_compensated: usize,
    /// Records in flight that were finished or marked as failed.
    pub wal_replayed: usize,
    /// What the last look at the graph came to, if one was taken.
    pub consistency: Option<ConsistencyFinding>,
}

/// Brings log and sagas into agreement.
#[derive(Debug)]
pub struct ReconciliationEngine {
    saga: MergeSagaOrchestrator,
}

impl ReconciliationEngine {
    /// The keeper of the steps of merges.
    pub closed spec fn orchestrator(&self) -> MergeSagaOrchestrator {
        self.saga
    }

    pub fn new(saga: MergeSagaOrchestrator) -> (r: Self)
        ensures
            r.orchestrator() == saga,
    {
        ReconciliationEngine { saga }
    }

    /// Drops the sagas that did not come to their end, then indexes the log anew.
    pub fn reconcile_on_startup(
        &self,
        kv: &mut MemoryKv,
        wal: &MutationLog,
        mutation_index: &mut MutationIndex,
    ) -> (r: RecoveryReport)
        ensures
            final(kv)@ == saga::strays_unlocked(saga::orphans_dropped(old(kv)@)),
            final(mutation_index)@ == wal::index_of(wal@),
            r.mutation_index_entries == wal::index_of(wal@).dom().len(),
            r.in_flight_wal_records == wal::flying(wal@),
            r.sagas_compensated == old(kv)@.dom().filter(
                |q: Seq<char>| saga::orphan_row(old(kv)@, q),
            ).len() + saga::orphans_dropped(old(kv)@).dom().filter(
                |q: Seq<char>| saga::stray_row(saga::orphans_dropped(old(kv)@), q),
            ).len(),
            r.wal_replayed == 0,
            r.consistency is None,
    {
        let compensated = self.saga.compensate_orphans(kv);
        mutation_index.rebuild_from_wal(wal.iter_all());
        RecoveryReport {
            mutation_index_entries: mutation_index.len(),
            in_flight_wal_records: wal.in_flight_count(),
            sagas_compensated: compensated,
            wal_replayed: 0,
            consistency: None,
        }
    }
}

/// How a round of merge recovery is entered in the audit; nothing where nothing was done.
pub open spec fn merge_recovery_line(resumed: nat, compensated: nat) -> Option<Seq<char>> {
    if resumed > 0 || compensated > 0 {
        Some(
            "periodic_merge_recovery resumed="@ + hex::decimal(resumed) + " compensated="@ + hex::decimal(
                compensated,
            ),
        )
    } else {
        None
    }
}

/// How a round of reconciliation is entered in the audit; nothing where nothing was done.
pub open spec fn reconcile_line(r: RecoveryReport) -> Option<Seq<char>> {
    if r.sagas_compensated > 0 || r.wal_replayed > 0 {
        Some(
            "periodic_reconcile sagas="@ + hex::decimal(r.sagas_compensated as nat) + " wal_replayed="@
                + hex::decimal(r.wal_replayed as nat) + " inflight="@ + hex::decimal(
                r.in_flight_wal_records as nat,
            ),
        )
    } else {
        None
    }
}

/// How a look at the graph is entered in the audit; nothing where all is in order.
pub open spec fn consistency_line(f: ConsistencyFinding) -> Option<Seq<char>> {
    if f.clean {
        None
    } else {
        Some("consistency_check "@ + f.summary@)
    }
}

/// An optional line as text.
pub open spec fn line_view(r: Option<String>) -> Option<Seq<char>> {
    match r {
        Some(s) => Some(s@),
        None => None,
    }
}

/// Reconciles every so many seconds.
#[derive(Debug, Clone, Copy)]
pub struct PeriodicReconciler {
    pub interval_secs: u64,
}

impl Default for PeriodicReconciler {
    /// Every hour.
    fn default() -> (r: Self)
        ensures
            r.interval_secs == 3600,
    {
        PeriodicReconciler { interval_secs: 3600 }
    }
}

impl PeriodicReconciler {
    pub fn new(interval_secs: u64) -> (r: Self)
        ensures
            r.interval_secs == interval_secs,
    {
        PeriodicReconciler { interval_secs }
    }

    /// Writes the audit line of a round of merge recovery.
    pub fn merge_recovery_audit(&self, resumed: usize, compensated: usize) -> (r: Option<String>)
        ensures
            line_view(r) == merge_recovery_line(resumed as nat, compensated as nat),
    {
        if resumed == 0 && compensated == 0 {
            return None;
        }
        let mut out = owned("periodic_merge_recovery resumed=");
        append_text(&mut out, decimal_text(resumed as u64).as_str());
        append_text(&mut out, " compensated=");
        append_text(&mut out, decimal_text(compensated as u64).as_str());
        Some(out)
    }

    /// Writes the audit line of a round of reconciliation.
    pub fn reconcile_audit(&self, report: &RecoveryReport) -> (r: Option<String>)
        ensures
            line_view(r) == reconcile_line(*report),
    {
        if report.sagas_compensated == 0 && report.wal_replayed == 0 {
            return None;
        }
        let mut out = owned("periodic_reconcile sagas=");
        append_text(&mut out, decimal_text(report.sagas_compensated as u64).as_str());
        append_text(&mut out, " wal_replayed=");
        append_text(&mut out, decimal_text(report.wal_replayed as u64).as_str());
        append_text(&mut out, " inflight=");
        append_text(&mut out, decimal_text(report.in_flight_wal_records as u64).as_str());
        Some(out)
    }

    /// Writes the audit line of a look at the graph.
    pub fn consistency_audit(&self, finding: &ConsistencyFinding) -> (r: Option<String>)
        ensures
            line_view(r) == consistency_line(*finding),
    {
        if finding.clean {
            return None;
        }
        let mut out = owned("consistency_check ");
        append_text(&mut out, finding.summary.as_str());
        Some(out)
    }

    /// Reconciles once: sagas and the log, then the merges that are still under way, then `look`
    /// is taken at the graph that this leaves. `wal_replayed` is how many records in flight a replay
    /// of the log brought to an end. Returns what was found and the lines for the audit, in order.
    pub fn run_once<S: VectorChunkStore, F: Fn(&InMemoryGraph, &MemoryKv) -> ConsistencyFinding>(
        &self,
        saga: &MergeSagaOrchestrator,
        kv: &mut MemoryKv,
        wal: &MutationLog,
        wal_replayed: usize,
        mutation_index: &mut MutationIndex,
        graph: &mut InMemoryGraph,
        outcomes: &Vec<(String, RegenOutcome)>,
        vector: &mut S,
        limits: &Vec<EdgeLimit>,
        look: F,
    ) -> (r: (RecoveryReport, MergeRecoveryReport, Vec<String>))
        requires
            forall|g: &InMemoryGraph, k: &MemoryKv| call_requires(look, (g, k)),
        ensures
            final(mutation_index)@ == wal::index_of(wal@),
            r.0.in_flight_wal_records == wal::flying(wal@),
            r.0.mutation_index_entries == wal::index_of(wal@).dom().len(),
            r.0.sagas_compensated == old(kv)@.dom().filter(
                |q: Seq<char>| saga::orphan_row(old(kv)@, q),
            ).len() + saga::orphans_dropped(old(kv)@).dom().filter(
                |q: Seq<char>| saga::stray_row(saga::orphans_dropped(old(kv)@), q),
            ).len(),
            r.0.wal_replayed == wal_replayed,
            final(vector).chunks() == old(vector).chunks(),
            final(vector).asked() == old(vector).asked(),
            merge_recover::settled_untold(
                RecoveryEnv { loses: saga.loses(), outcomes: outcomes@, limits: limits@ },
                (saga::strays_unlocked(saga::orphans_dropped(old(kv)@)), old(graph)@),
                (final(kv)@, final(graph)@),
                r.1,
            ),
            r.0.consistency matches Some(f) && call_ensures(
                look,
                (&*final(graph), &*final(kv)),
                f,
            ) && text::texts(r.2@) == lines_of(
                merge_recovery_line(r.1.resumed as nat, r.1.compensated as nat),
                consistency_line(f),
                reconcile_line(r.0),
            ),
    {
        let engine = ReconciliationEngine::new(*saga);
        let mut report = engine.reconcile_on_startup(kv, wal, mutation_index);
        report.wal_replayed = wal_replayed;
        let merges = recover_inflight_merges(graph, kv, outcomes, saga, vector, None, limits);
        let mut lines: Vec<String> = Vec::new();
        if let Some(line) = self.merge_recovery_audit(merges.resumed, merges.compensated) {
            lines.push(line);
        }
        let finding = look(&*graph, &*kv);
        if let Some(line) = self.consistency_audit(&finding) {
            lines.push(line);
        }
        report.consistency = Some(finding);
        if let Some(line) = self.reconcile_audit(&report) {
            lines.push(line);
        }
        proof {
            assert(text::texts(lines@) =~= lines_of(
                merge_recovery_line(merges.resumed as nat, merges.compensated as nat),
                consistency_line(finding),
                reconcile_line(report),
            ));
        }
        (report, merges, lines)
    }
}

/// The one line that is there, or none.
pub open spec fn line_if(a: Option<Seq<char>>) -> Seq<Seq<char>> {
    match a {
        Some(x) => seq![x],
        None => Seq::empty(),
    }
}

/// The lines that are there.
pub open spec fn lines_of(
    a: Option<Seq<char>>,
    b: Option<Seq<char>>,
    c: Option<Seq<char>>,
) -> Seq<Seq<char>> {
    line_if(a) + line_if(b) + line_if(c)
}

} // verus!
