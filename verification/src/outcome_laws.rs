//! What clean-up, recovery and record keeping come to.

use crate::absence;
use crate::cardinality;
use crate::cardinality::CardinalityViolation;
use crate::chunk;
use crate::edge_json;
use crate::graph::{EdgeType, GraphView, Language, RevisionStatus, RevisionView};
use crate::graph_laws;
use crate::hex;
use crate::ids::{BranchId, IdentityId, NodeRevisionId};
use crate::lsp_pool;
use crate::merge_control;
use crate::merge_metrics;
use crate::merge_metrics::MergeMetricsRecord;
use crate::merge_preflight;
use crate::merge_recover;
use crate::merge_recover::{RecoveryEntryView, RecoveryEnv, RecoveryState};
use crate::migration;
use crate::migration::MigrateBodiesReport;
use crate::overrides;
use crate::path_lease;
use crate::path_lease::SessionId;
use crate::pre_write_snapshot;
use crate::pre_write_snapshot::RestoreView;
use crate::query_context;
use crate::query_context::Tokenizer;
use crate::query_laws;
use crate::ranking_policy;
use crate::ranking_policy::EdgeTypeWeights;
use crate::revision_index;
use crate::saga;
use crate::saga::SagaPhase;
use crate::security;
use crate::spans;
use crate::symbol_body;
use crate::text;
use crate::tree_laws;
use crate::vector_cleanup_worker;
use crate::vector_store::Asked;
use crate::wal;
use crate::wal::{MutationPhase, RecordView};
use vstd::prelude::*;

verus! {

/// How many of the deletes that were asked were done.
pub open spec fn asked_and_done(asked: Seq<Asked>) -> nat
    decreases asked.len(),
{
    if asked.len() == 0 {
        0
    } else {
        asked_and_done(asked.drop_last()) + (if asked.last().1 {
            1nat
        } else {
            0
        })
    }
}

/// A chunk is that of one of the given revisions.
pub open spec fn chunk_among(g: GraphView, revisions: Seq<NodeRevisionId>, c: [u8; 32]) -> bool {
    exists|i: int|
        0 <= i < revisions.len() && g.rev(#[trigger] revisions[i]) is Some && c == chunk::chunk_of(
            g.rev(revisions[i])->0.identity_id,
            revisions[i],
        )
}

proof fn lemma_asked_push(asked: Seq<Asked>, a: Asked, x: Asked)
    ensures
        asked.push(a).contains(x) <==> asked.contains(x) || x == a,
{
    assert(asked.push(a) =~= asked + seq![a]);
    tree_laws::lemma_both(asked, seq![a], x);
    tree_laws::lemma_one(a, x);
}

proof fn lemma_chunk_push(refused: Seq<[u8; 32]>, a: [u8; 32], x: [u8; 32])
    ensures
        refused.push(a).contains(x) <==> refused.contains(x) || x == a,
{
    assert(refused.push(a) =~= refused + seq![a]);
    tree_laws::lemma_both(refused, seq![a], x);
    tree_laws::lemma_one(a, x);
}

/// Cleaning up after dropped revisions: only their chunks are asked to be deleted; those that were deleted
/// are gone, those that were refused are told, and no chunk of theirs is left out.
pub proof fn law_chunks_cleaned(
    g: GraphView,
    chunks: Set<[u8; 32]>,
    told: Seq<bool>,
    revisions: Seq<NodeRevisionId>,
    c: [u8; 32],
)
    ensures
        ({
            let r = merge_control::chunks_cleaned(g, chunks, told, revisions);
            &&& r.left.contains(c) <==> chunks.contains(c) && !r.asked.contains((c, true))
            &&& r.refused.contains(c) <==> r.asked.contains((c, false))
            &&& r.asked.contains((c, true)) || r.asked.contains((c, false)) <==> chunks.contains(c) && chunk_among(
                g,
                revisions,
                c,
            )
            &&& r.deleted == asked_and_done(r.asked)
            &&& r.deleted + r.refused.len() == r.asked.len()
            &&& forall|i: int| 0 <= i < r.asked.len() ==> (#[trigger] r.asked[i]).1 == told[i]
        }),
    decreases revisions.len(),
{
    let r = merge_control::chunks_cleaned(g, chunks, told, revisions);
    if revisions.len() > 0 {
        let rest = revisions.drop_last();
        let last = revisions.last();
        let front = merge_control::chunks_cleaned(g, chunks, told, rest);
        law_chunks_cleaned(g, chunks, told, rest, c);
        if chunk_among(g, rest, c) {
            let i = choose|i: int|
                0 <= i < rest.len() && g.rev(#[trigger] rest[i]) is Some && c == chunk::chunk_of(
                    g.rev(rest[i])->0.identity_id,
                    rest[i],
                );
            assert(revisions[i] == rest[i]);
            assert(chunk_among(g, revisions, c));
        }
        if chunk_among(g, revisions, c) {
            let i = choose|i: int|
                0 <= i < revisions.len() && g.rev(#[trigger] revisions[i]) is Some && c == chunk::chunk_of(
                    g.rev(revisions[i])->0.identity_id,
                    revisions[i],
                );
            if i < rest.len() {
                assert(rest[i] == revisions[i]);
                assert(chunk_among(g, rest, c));
            }
        }
        if g.rev(last) is Some {
            let d = chunk::chunk_of(g.rev(last)->0.identity_id, last);
            assert(revisions[revisions.len() - 1] == last);
            if c == d {
                assert(chunk_among(g, revisions, c));
            }
            let done = told[front.asked.len() as int];
            if front.left.contains(d) {
                lemma_asked_push(front.asked, (d, done), (c, true));
                lemma_asked_push(front.asked, (d, done), (c, false));
                lemma_chunk_push(front.refused, d, c);
                assert(front.asked.push((d, done)).drop_last() =~= front.asked);
                assert forall|i: int| 0 <= i < r.asked.len() implies (#[trigger] r.asked[i]).1 == told[i] by {
                    if i < front.asked.len() {
                        assert(r.asked[i] == front.asked[i]);
                    }
                }
            } else if c == d {
                law_chunks_cleaned(g, chunks, told, rest, d);
            }
        }
    }
}

/// Moving a body is counted: each is scanned, and it was either there already or is put in; those that read
/// back and those whose file is deleted are counted besides.
pub proof fn law_moved_bodies(rep: MigrateBodiesReport, existed: bool, reads_back: bool, deleted: bool)
    requires
        rep.files_scanned < usize::MAX,
        rep.inserted < usize::MAX,
        rep.skipped_existing < usize::MAX,
        rep.verified < usize::MAX,
        rep.files_deleted < usize::MAX,
    ensures
        ({
            let n = migration::body_noted(rep, existed, reads_back, deleted);
            &&& n.files_scanned == rep.files_scanned + 1
            &&& n.inserted + n.skipped_existing == rep.inserted + rep.skipped_existing + 1
            &&& n.inserted == rep.inserted <==> existed
            &&& n.skipped_existing == rep.skipped_existing <==> !existed
            &&& n.verified == rep.verified <==> !reads_back
            &&& n.files_deleted == rep.files_deleted <==> !deleted
            &&& rep.verified <= n.verified <= rep.verified + 1
            &&& rep.files_deleted <= n.files_deleted <= rep.files_deleted + 1
        }),
{
}

/// The first byte of a record tells the phase of a merge.
pub proof fn law_phase_tags(v: Seq<u8>)
    requires
        v.len() > 0,
    ensures
        v[0] == 1 <==> saga::phase_of(v) == Some(SagaPhase::Intent),
        v[0] == 2 <==> saga::phase_of(v) == Some(SagaPhase::Classifying),
        v[0] == 3 <==> saga::phase_of(v) == Some(SagaPhase::Promoting),
        v[0] == 4 <==> saga::phase_of(v) matches Some(SagaPhase::EdgeBatch { seq }),
        v[0] == 5 <==> saga::phase_of(v) == Some(SagaPhase::PointerSwap),
        v[0] == 6 <==> saga::phase_of(v) == Some(SagaPhase::Committed),
        v[0] == 0 || v[0] > 6 <==> saga::phase_of(v) is None,
{
}

/// A saga on record that is not at its end.
pub open spec fn unsettled(rows: Seq<(String, Vec<u8>)>) -> Seq<(String, Vec<u8>)> {
    rows.filter(|r: (String, Vec<u8>)| !(r.1@.len() > 0 && r.1@[0] == 6))
}

/// Recovery accounts for each merge that is not at its end once: as resumed or as compensated. One that is
/// at its end is not counted.
pub proof fn law_recoveries_are_counted(
    env: RecoveryEnv,
    rows: Seq<(String, Vec<u8>)>,
    s: RecoveryState,
    t: RecoveryState,
)
    requires
        merge_recover::recovered(env, rows, s, t),
    ensures
        t.resumed + t.compensated == s.resumed + s.compensated + unsettled(rows).len(),
        s.resumed <= t.resumed,
        s.compensated <= t.compensated,
        s.entries.len() <= t.entries.len(),
        t.entries.take(s.entries.len() as int) == s.entries,
        t.entries.len() - s.entries.len() <= unsettled(rows).len(),
        t.resumed - s.resumed <= t.entries.len() - s.entries.len(),
    decreases rows.len(),
{
    reveal(Seq::filter);
    if rows.len() > 0 {
        let rest = rows.drop_last();
        let mid = choose|mid: RecoveryState|
            merge_recover::recovered(env, rest, s, mid) && #[trigger] merge_recover::recovery_step(
                env,
                rows.last(),
                mid,
                t,
            );
        law_recoveries_are_counted(env, rest, s, mid);
        let n = s.entries.len() as int;
        assert(t.entries == mid.entries || exists|e: RecoveryEntryView| t.entries == mid.entries.push(e));
        assert(t.entries.take(n) =~= mid.entries.take(n));
    }
    assert(s.entries.take(s.entries.len() as int) =~= s.entries);
}

/// A text within the budget is left as it is; any other is cut to a front that fits, and the tokens that
/// are told to be left out are those that the front lacks.
pub proof fn law_cut_text<T: Tokenizer>(tok: T, s: Seq<char>, budget: nat)
    requires
        tok.tokens(Seq::empty()) <= budget,
        query_context::can_be_cut(tok, s, budget),
    ensures
        ({
            let r = query_context::cut_to_budget(tok, s, budget);
            &&& tok.tokens(s) <= budget ==> r.0 == s && !r.1 && r.2 == 0
            &&& tok.tokens(s) > budget ==> r.1 && exists|f: Seq<char>|
                f.len() <= s.len() && f == s.take(f.len() as int) && tok.tokens(f) <= budget && r.2 == tok.tokens(s)
                    - #[trigger] tok.tokens(f) && r.0 == f + "\n// ... [truncated, "@ + hex::decimal(r.2)
                    + " tokens omitted]"@
        }),
{
    if tok.tokens(s) > budget {
        let n = spans::byte_len(s);
        graph_laws::lemma_index_of_front(s, Seq::empty());
        assert(s + Seq::<char>::empty() =~= s);
        assert(s.take(0) =~= Seq::empty());
        assert(s.take(s.len() as int) =~= s);
        assert(query_context::front_bytes(s, 0) =~= Seq::empty());
        assert(query_context::front_bytes(s, n) =~= s);
        assert(n > 0);
        query_context::law_cut_fits(tok, s, budget, 0, n);
        let kept = query_context::kept_bytes(tok, s, budget, 0, n)->0;
        let f = query_context::front_bytes(s, kept);
        spans::lemma_index_at(s, kept);
        assert(f.len() <= s.len() && f =~= s.take(f.len() as int));
    }
}

/// A weight is set for the kind of edge that a name stands for, whatever the case of its letters, and for no
/// other kind.
pub proof fn law_weight_of_a_name<W>(w: EdgeTypeWeights<W>, name: Seq<char>, v: W)
    ensures
        ({
            let r = ranking_policy::weight_set(w, name, v);
            let u = ranking_policy::capitals(name);
            &&& r.calls == (if u == "CALLS"@ { v } else { w.calls })
            &&& r.imports == (if u == "IMPORTS"@ { v } else { w.imports })
            &&& r.extends == (if u == "EXTENDS"@ { v } else { w.extends })
            &&& r.uses == (if u == "USES"@ { v } else { w.uses })
            &&& r.configures == (if u == "CONFIGURES"@ { v } else { w.configures })
            &&& r.co_located == (if u == "CO_LOCATED"@ || u == "CO-LOCATED"@ || u == "COLOCATED"@ {
                v
            } else {
                w.co_located
            })
            &&& r.test_of == (if u == "TEST_OF"@ || u == "TEST-OF"@ { v } else { w.test_of })
            &&& r.renamed_from == (if u == "RENAMED_FROM"@ || u == "RENAMED-FROM"@ { v } else { w.renamed_from })
        }),
{
    reveal_strlit("CALLS");
    reveal_strlit("IMPORTS");
    reveal_strlit("EXTENDS");
    reveal_strlit("USES");
    reveal_strlit("CONFIGURES");
    reveal_strlit("CO_LOCATED");
    reveal_strlit("CO-LOCATED");
    reveal_strlit("COLOCATED");
    reveal_strlit("TEST_OF");
    reveal_strlit("TEST-OF");
    reveal_strlit("RENAMED_FROM");
    reveal_strlit("RENAMED-FROM");
    assert("CALLS"@[0] == 'C' && "IMPORTS"@[0] == 'I' && "EXTENDS"@[0] == 'E' && "USES"@[0] == 'U');
    assert("CONFIGURES"@[2] == 'N' && "CO_LOCATED"@[2] == '_' && "CO-LOCATED"@[2] == '-' && "COLOCATED"@[2] == 'L');
    assert("TEST_OF"@[0] == 'T' && "TEST-OF"@[0] == 'T' && "RENAMED_FROM"@[0] == 'R' && "RENAMED-FROM"@[0] == 'R');
    assert("CALLS"@[1] == 'A' && "CO_LOCATED"@[1] == 'O' && "CO-LOCATED"@[1] == 'O' && "COLOCATED"@[1] == 'O'
        && "CONFIGURES"@[1] == 'O');
}

/// An edge type and its name belong together.
pub proof fn law_edge_type_names(s: Seq<char>)
    ensures
        edge_json::edge_type_named(s) == Some(EdgeType::Calls) <==> s == "Calls"@,
        edge_json::edge_type_named(s) == Some(EdgeType::Imports) <==> s == "Imports"@,
        edge_json::edge_type_named(s) == Some(EdgeType::Extends) <==> s == "Extends"@,
        edge_json::edge_type_named(s) == Some(EdgeType::Uses) <==> s == "Uses"@,
        edge_json::edge_type_named(s) == Some(EdgeType::Configures) <==> s == "Configures"@,
        edge_json::edge_type_named(s) == Some(EdgeType::CoLocated) <==> s == "CoLocated"@,
        edge_json::edge_type_named(s) == Some(EdgeType::TestOf) <==> s == "TestOf"@,
        edge_json::edge_type_named(s) == Some(EdgeType::RenamedFrom) <==> s == "RenamedFrom"@,
        edge_json::edge_type_named(s) is Some ==> edge_json::edge_type_name(edge_json::edge_type_named(s)->0) == s
            && cardinality::name_of_type(edge_json::edge_type_named(s)->0) == s,
{
    reveal_strlit("Calls");
    reveal_strlit("Imports");
    reveal_strlit("Extends");
    reveal_strlit("Uses");
    reveal_strlit("Configures");
    reveal_strlit("CoLocated");
    reveal_strlit("TestOf");
    reveal_strlit("RenamedFrom");
    assert("Calls"@.len() == 5 && "Imports"@.len() == 7 && "Extends"@.len() == 7 && "Uses"@.len() == 4);
    assert("Configures"@.len() == 10 && "CoLocated"@.len() == 9 && "TestOf"@.len() == 6 && "RenamedFrom"@.len()
        == 11);
    assert("Imports"@[0] == 'I' && "Extends"@[0] == 'E');
}

/// The bodies that are kept for removed revisions are those of the revisions of the branch that are removed.
pub proof fn law_bodies_of_removed(revs: Seq<RevisionView>, branch: BranchId, b: ([u8; 32], Option<Seq<char>>))
    ensures
        symbol_body::bodies_of_removed(revs, branch).contains(b) <==> exists|r: RevisionView| #[trigger]
            revs.contains(r) && r.branch_id == branch && r.status == RevisionStatus::Tombstone && r.body_hash == b.0
                && (b.1 is Some <==> r.qualified_name == r.file_path) && (b.1 is Some ==> b.1->0 == r.file_path),
    decreases revs.len(),
{
    if revs.len() > 0 {
        let front = revs.drop_last();
        let l = revs.last();
        law_bodies_of_removed(front, branch, b);
        assert forall|c: RevisionView| #[trigger] revs.contains(c) implies (front.contains(c) || c == l) by {
            tree_laws::lemma_ends(revs, c);
        }
        assert forall|c: RevisionView| #[trigger] front.contains(c) implies revs.contains(c) by {
            tree_laws::lemma_ends(revs, c);
        }
        tree_laws::lemma_ends(revs, l);
        if l.branch_id == branch && l.status == RevisionStatus::Tombstone {
            let a = symbol_body::bodies_of_removed(front, branch);
            let e = (
                l.body_hash,
                if l.qualified_name == l.file_path {
                    Some(l.file_path)
                } else {
                    None
                },
            );
            assert(a.push(e) =~= a + seq![e]);
            tree_laws::lemma_both(a, seq![e], b);
            tree_laws::lemma_one(e, b);
        }
    }
}

/// The edges that rows set to an identity are those whose row holds its bytes.
pub proof fn law_retargeted_edges(
    rows: Seq<(String, Vec<u8>)>,
    target: IdentityId,
    x: (BranchId, NodeRevisionId, [u8; 16]),
)
    ensures
        overrides::retargeted_in(rows, target).contains(x) <==> exists|r: (String, Vec<u8>)| #[trigger]
            rows.contains(r) && r.1@ == target.0@ && overrides::override_of(r.0@) == Some(x),
    decreases rows.len(),
{
    if rows.len() > 0 {
        let front = rows.drop_last();
        let l = rows.last();
        law_retargeted_edges(front, target, x);
        assert forall|c: (String, Vec<u8>)| #[trigger] rows.contains(c) implies (front.contains(c) || c == l) by {
            tree_laws::lemma_ends(rows, c);
        }
        assert forall|c: (String, Vec<u8>)| #[trigger] front.contains(c) implies rows.contains(c) by {
            tree_laws::lemma_ends(rows, c);
        }
        tree_laws::lemma_ends(rows, l);
        match overrides::override_of(l.0@) {
            Some(e) => {
                let a = overrides::retargeted_in(front, target);
                assert(a.push(e) =~= a + seq![e]);
                tree_laws::lemma_both(a, seq![e], x);
                tree_laws::lemma_one(e, x);
            },
            None => {},
        }
    }
}

/// Dropping edges leaves the given revisions without any and every other revision with its own.
pub proof fn law_dropped_edges(g: GraphView, revisions: Seq<NodeRevisionId>, rid: NodeRevisionId)
    ensures
        ({
            let r = merge_control::edges_dropped(g, revisions);
            &&& revisions.contains(rid) && g.rev(rid) is Some ==> r.out(rid).len() == 0
            &&& !revisions.contains(rid) ==> r.out(rid) == g.out(rid)
            &&& r.revisions == g.revisions
        }),
    decreases revisions.len(),
{
    if revisions.len() > 0 {
        let front = revisions.drop_last();
        law_dropped_edges(g, front, rid);
        tree_laws::lemma_ends(revisions, rid);
        tree_laws::lemma_ends(revisions, revisions.last());
    }
}

/// The rows that are restored are counted one by one.
pub proof fn law_restored_are_counted(rows: Seq<(String, Vec<u8>)>, branch: BranchId)
    ensures
        merge_control::restored_count(rows, branch) == rows.filter(
            |r: (String, Vec<u8>)|
                merge_control::row_identity(r, branch) is Some && text::contains_text(r.0@, ":ri:"@),
        ).len(),
    decreases rows.len(),
{
    reveal(Seq::filter);
    if rows.len() > 0 {
        law_restored_are_counted(rows.drop_last(), branch);
    }
}

/// The change log leads from a revision to the last record that changed it.
pub proof fn law_last_record_of_a_revision(records: Seq<RecordView>, rid: NodeRevisionId, k: int)
    ensures
        0 <= k < records.len() && records[k].affected.contains(rid) && (forall|j: int|
            k < j < records.len() ==> !(#[trigger] records[j]).affected.contains(rid)) ==> wal::index_of(
            records,
        ).contains_key(rid) && wal::index_of(records)[rid] == records[k].log_id,
        (forall|j: int| 0 <= j < records.len() ==> !(#[trigger] records[j]).affected.contains(rid))
            ==> !wal::index_of(records).contains_key(rid),
    decreases records.len(),
{
    if records.len() > 0 {
        let front = records.drop_last();
        let l = records.last();
        lemma_with_revisions(wal::index_of(front), l.affected, l.log_id, rid);
        law_last_record_of_a_revision(front, rid, k);
        assert(records[records.len() - 1] == l);
        assert(forall|j: int| 0 <= j < front.len() ==> front[j] == #[trigger] records[j]);
    }
}

proof fn lemma_with_revisions(
    m: Map<NodeRevisionId, u64>,
    revisions: Seq<NodeRevisionId>,
    log_id: u64,
    rid: NodeRevisionId,
)
    ensures
        ({
            let r = wal::with_revisions(m, revisions, log_id);
            &&& revisions.contains(rid) ==> r.contains_key(rid) && r[rid] == log_id
            &&& !revisions.contains(rid) ==> (r.contains_key(rid) <==> m.contains_key(rid)) && r[rid] == m[rid]
        }),
    decreases revisions.len(),
{
    if revisions.len() > 0 {
        lemma_with_revisions(m, revisions.drop_last(), log_id, rid);
        tree_laws::lemma_ends(revisions, rid);
        tree_laws::lemma_ends(revisions, revisions.last());
    }
}

/// The records in flight are counted one by one.
pub proof fn law_records_in_flight(s: Seq<RecordView>)
    ensures
        wal::flying(s) == s.filter(
            |r: RecordView| r.phase != MutationPhase::Committed && r.phase != MutationPhase::Failed,
        ).len(),
    decreases s.len(),
{
    reveal(Seq::filter);
    if s.len() > 0 {
        law_records_in_flight(s.drop_last());
    }
}

/// A session that asks to run a query runs one more unless it runs as many as it may; one that ends a query
/// runs one less. No other session is touched.
pub proof fn law_quota_steps(m: Map<u64, u32>, max: u32, session: u64, other: u64)
    ensures
        security::running(m, session) < max ==> security::running(
            security::quota_asked(m, max, session),
            session,
        ) == security::running(m, session) + 1,
        security::running(m, session) >= max ==> security::running(
            security::quota_asked(m, max, session),
            session,
        ) == security::running(m, session),
        security::running(m, session) > 0 ==> security::running(
            security::quota_given_back(m, session),
            session,
        ) == security::running(m, session) - 1,
        security::running(m, session) == 0 ==> security::running(
            security::quota_given_back(m, session),
            session,
        ) == 0,
        other != session ==> security::running(security::quota_asked(m, max, session), other) == security::running(
            m,
            other,
        ) && security::running(security::quota_given_back(m, session), other) == security::running(m, other),
        m.contains_key(session) ==> security::running(m, session) == m[session],
        !m.contains_key(session) ==> security::running(m, session) == 0,
{
}

/// Registering a path counts it once more, unregistering it once less, down to none; other paths keep
/// their counts.
pub proof fn law_registered_paths(m: Map<Seq<char>, u32>, path: Seq<char>, other: Seq<char>)
    requires
        path_lease::count_of(m, path) < u32::MAX,
    ensures
        path_lease::count_of(path_lease::registered(m, path), path) == path_lease::count_of(m, path) + 1,
        path_lease::count_of(m, path) > 0 ==> path_lease::count_of(path_lease::unregistered(m, path), path)
            == path_lease::count_of(m, path) - 1,
        path_lease::count_of(m, path) <= 1 ==> !path_lease::unregistered(m, path).contains_key(path),
        other != path ==> path_lease::count_of(path_lease::registered(m, path), other) == path_lease::count_of(
            m,
            other,
        ) && path_lease::count_of(path_lease::unregistered(m, path), other) == path_lease::count_of(m, other),
{
}

/// A path that a session gives back is free; a lease of another session stays.
pub proof fn law_returned_lease(
    m: Map<Seq<char>, SessionId>,
    path: Seq<char>,
    session: SessionId,
    other: Seq<char>,
)
    ensures
        path_lease::leased_to(m, path) == Some(session) ==> path_lease::leased_to(
            path_lease::lease_released(m, path, session),
            path,
        ) is None,
        path_lease::leased_to(m, path) != Some(session) ==> path_lease::lease_released(m, path, session) == m,
        other != path ==> path_lease::leased_to(path_lease::lease_released(m, path, session), other)
            == path_lease::leased_to(m, other),
{
}

/// The waits between attempts double, from a quarter of a second on.
pub proof fn law_waits_double(k: nat)
    ensures
        vector_cleanup_worker::ladder(k) == 250 * vstd::arithmetic::power2::pow2(k),
    decreases k,
{
    vstd::arithmetic::power2::lemma2_to64();
    if k > 0 {
        law_waits_double((k - 1) as nat);
        vstd::arithmetic::power2::lemma_pow2_unfold(k);
    }
}

/// Each answer is either yes or no.
pub proof fn law_answers_are_counted(told: Seq<bool>)
    ensures
        vector_cleanup_worker::told_so(told, true) + vector_cleanup_worker::told_so(told, false) == told.len(),
        vector_cleanup_worker::told_so(told, true) == told.filter(|b: bool| b).len(),
    decreases told.len(),
{
    reveal(Seq::filter);
    if told.len() > 0 {
        law_answers_are_counted(told.drop_last());
    }
}

/// What is deleted on a branch is hidden there. A branch made from it does not see what was deleted by the
/// time it was made, and still sees what was deleted later.
pub proof fn law_deletions_before_a_branch(
    m: Map<Seq<char>, Seq<u8>>,
    chain: Seq<BranchId>,
    k: int,
    identity: IdentityId,
    deleted: u64,
    made: u64,
)
    requires
        0 <= k < chain.len(),
        absence::deleted_at(m, chain[k], identity) == Some(deleted),
    ensures
        k == 0 ==> absence::hidden(m, chain, identity),
        k > 0 && revision_index::forked_at(m, chain[k - 1]) == Some(made) && deleted <= made ==> absence::hidden(
            m,
            chain,
            identity,
        ),
        k > 0 && revision_index::forked_at(m, chain[k - 1]) is None ==> absence::hidden(m, chain, identity),
        k > 0 && revision_index::forked_at(m, chain[k - 1]) == Some(made) && deleted > made && (forall|j: int|
            0 <= j < chain.len() && j != k ==> absence::deleted_at(m, #[trigger] chain[j], identity) is None)
            ==> !absence::hidden(m, chain, identity),
{
    if k == 0 {
        assert(absence::hides(m, chain, k, identity));
    } else {
        assert(revision_index::forked_at(m, chain[k - 1]) is None || deleted
            <= revision_index::forked_at(m, chain[k - 1])->0 ==> absence::hides(m, chain, k, identity));
    }
}

/// The bytes of a character are counted as UTF-8 writes it.
pub proof fn law_width_of_a_character(c: char)
    ensures
        spans::width(c) == 1 <==> (c as u32) < 0x80,
        spans::width(c) == 2 <==> 0x80 <= (c as u32) < 0x800,
        spans::width(c) == 3 <==> 0x800 <= (c as u32) < 0x10000,
        spans::width(c) == 4 <==> 0x10000 <= (c as u32),
{
}

/// The bytes of two texts add up.
pub proof fn law_bytes_add_up(a: Seq<char>, b: Seq<char>)
    ensures
        spans::byte_len(a + b) == spans::byte_len(a) + spans::byte_len(b),
    decreases b.len(),
{
    if b.len() == 0 {
        assert(a + b =~= a);
    } else {
        assert((a + b).drop_last() =~= a + b.drop_last());
        law_bytes_add_up(a, b.drop_last());
    }
}

/// The records since a time are those that were read and did not begin before it.
pub proof fn law_records_since(
    read: Seq<Option<MergeMetricsRecord>>,
    since_ms: Option<u64>,
    rec: MergeMetricsRecord,
)
    ensures
        merge_metrics::kept_since(read, since_ms).contains(rec) <==> read.contains(Some(rec)) && (since_ms is None
            || rec.started_at_ms >= since_ms->0),
    decreases read.len(),
{
    if read.len() > 0 {
        let front = read.drop_last();
        law_records_since(front, since_ms, rec);
        tree_laws::lemma_ends(read, Some(rec));
        match read.last() {
            Some(e) => {
                let a = merge_metrics::kept_since(front, since_ms);
                assert(a.push(e) =~= a + seq![e]);
                tree_laws::lemma_both(a, seq![e], rec);
                tree_laws::lemma_one(e, rec);
            },
            None => {},
        }
    }
}

/// Sums over two lists add up, and the sum over one number is that number.
pub proof fn law_sums(a: Seq<nat>, b: Seq<nat>, n: nat)
    ensures
        merge_metrics::sum_of(a + b) == merge_metrics::sum_of(a) + merge_metrics::sum_of(b),
        merge_metrics::sum_of(seq![n]) == n,
    decreases b.len(),
{
    assert(seq![n].drop_last() =~= Seq::<nat>::empty());
    assert(merge_metrics::sum_of(Seq::empty()) == 0);
    if b.len() == 0 {
        assert(a + b =~= a);
    } else {
        assert((a + b).drop_last() =~= a + b.drop_last());
        law_sums(a, b.drop_last(), n);
    }
}

/// The paths that stand in the way of a merge are those that carry a patch.
pub proof fn law_paths_in_the_way(counts: Map<Seq<char>, u32>, paths: Seq<Seq<char>>, p: Seq<char>)
    ensures
        merge_preflight::patched(counts, paths).contains(p) <==> paths.contains(p) && counts.contains_key(p),
{
    query_laws::lemma_filter_has(paths, |q: Seq<char>| counts.contains_key(q), p);
}

/// Where the bytes of a file are kept, and how it is put back.
pub proof fn law_kept_files(dir: Seq<char>, patch_id: u64, path: Seq<char>, bytes: Seq<u8>)
    requires
        dir.len() > 0,
        dir.last() != '/',
    ensures
        pre_write_snapshot::kept_file(dir, patch_id, path) == dir + "/"@ + hex::decimal(patch_id as nat) + "/"@
            + text::replaced_text(path, "/"@, "__"@) + ".bin"@,
        bytes.len() == 0 <==> pre_write_snapshot::restoring(path, bytes) == RestoreView::Remove(path),
        bytes.len() > 0 <==> pre_write_snapshot::restoring(path, bytes) == RestoreView::Write(path, bytes),
{
}

/// The address of a workspace names the language and the branch.
pub proof fn law_workspace_address(branch: BranchId)
    ensures
        lsp_pool::workspace_uri(Language::Python, branch) == "cis-virtual://"@ + "Python"@ + "/"@ + hex::hex_of(
            branch.0@,
        ),
        lsp_pool::workspace_uri(Language::TypeScript, branch) == "cis-virtual://"@ + "TypeScript"@ + "/"@
            + hex::hex_of(branch.0@),
        lsp_pool::workspace_uri(Language::Rust, branch) == "cis-virtual://"@ + "Rust"@ + "/"@ + hex::hex_of(
            branch.0@,
        ),
        lsp_pool::workspace_uri(Language::Unknown, branch) == "cis-virtual://"@ + "Unknown"@ + "/"@ + hex::hex_of(
            branch.0@,
        ),
{
}

/// A report of a broken bound tells the revision, the kind of edge, how many there are and the bounds.
pub proof fn law_report_of_a_bound(name: Seq<char>, v: CardinalityViolation)
    ensures
        cardinality::violation_text(name, v) == name + ": "@ + edge_json::edge_type_name(v.ty) + " count="@
            + hex::decimal(v.count as nat) + " (min="@ + hex::decimal(v.min as nat) + ", max="@ + hex::decimal(
            v.max as nat,
        ) + ")"@,
{
}

} // verus!
