//! What holds of the course of merges and patches, and of what is written down of it.

use crate::audit;
use crate::audit::{EpochView, SinkView};
use crate::binding_sync;
use crate::branches;
use crate::cardinality::EdgeLimit;
use crate::graph::{GraphView, RevisionStatus, RevisionView};
use crate::ids;
use crate::ids::{BranchId, IdentityId, MergeId, NodeRevisionId};
use crate::keys;
use crate::merge_branch;
use crate::merge_branch::merge_branch;
use crate::merge_classify::{ClassifiedView, MergeStrategy, MergeWorkflowStatus};
use crate::merge_edges::RegenOutcome;
use crate::merge_lock;
use crate::merge_preflight;
use crate::merge_preflight::MergePreflightError;
use crate::merge_promote;
use crate::merge_promote::Promotion;
use crate::merge_recover;
use crate::merge_recover::{RecoveryEnv, RecoveryState};
use crate::merge_resume;
use crate::merge_resume::{MergeContext, ResumeInput, ResumeView};
use crate::optimistic_patcher;
use crate::optimistic_patcher::PatchView;
use crate::patch_commands;
use crate::patches;
use crate::repo_bootstrap;
use crate::saga;
use crate::saga::SagaPhase;
use crate::text;
use crate::text_laws;
use crate::tree_laws;
use crate::wal::{MutationKind, MutationPhase, RecordView};
use crate::write_commands;
use vstd::prelude::*;

verus! {

/// A merge of which no context or no phase is on record is not gone on with, nor is one that was
/// committed; nothing changes then.
pub proof fn law_nothing_to_go_on_with(
    m: Map<Seq<char>, Seq<u8>>,
    g: GraphView,
    merge_id: MergeId,
    loses: bool,
    outcomes: Option<Seq<(String, RegenOutcome)>>,
    limits: Seq<EdgeLimit>,
    r: Option<ResumeView>,
    m_after: Map<Seq<char>, Seq<u8>>,
    g_after: GraphView,
)
    requires
        merge_resume::resumed(m, g, merge_id, loses, outcomes, limits, r, m_after, g_after),
    ensures
        merge_resume::context_at(m, merge_id) is None || saga::saga_at(m, merge_id) is None || saga::saga_at(
            m,
            merge_id,
        ) == Some(SagaPhase::Committed) ==> r is None && m_after == m && g_after == g,
{
}

/// A merge that stopped before it put anything in force stops again only if it has conflicts and no
/// strategy; it leaves the graph as it is.
pub proof fn law_stopped_again(
    m: Map<Seq<char>, Seq<u8>>,
    g: GraphView,
    merge_id: MergeId,
    ctx: MergeContext,
    outcomes: Option<Seq<(String, RegenOutcome)>>,
    limits: Seq<EdgeLimit>,
    r: Option<ResumeView>,
    m_after: Map<Seq<char>, Seq<u8>>,
    g_after: GraphView,
)
    requires
        merge_resume::resumed(m, g, merge_id, false, outcomes, limits, r, m_after, g_after),
        merge_resume::context_at(m, merge_id) == Some(ctx),
        saga::saga_at(m, merge_id) == Some(SagaPhase::Intent) || saga::saga_at(m, merge_id) == Some(
            SagaPhase::Classifying,
        ),
    ensures
        r is None ==> ctx.strategy is None && g_after == g,
        ctx.strategy is Some ==> r is Some,
        r is Some && ctx.strategy is None ==> r->0.report.status != MergeWorkflowStatus::RequiresResolution,
{
}

/// A merge that stopped while it put its edges right goes on with what its target binds: with each
/// identity that it looked at and that is bound there, and with the revision that it is bound to; it
/// orphans nothing more.
pub proof fn law_going_on_with_edges(
    x: ResumeInput,
    phase: SagaPhase,
    m: Map<Seq<char>, Seq<u8>>,
    g: GraphView,
    out: ResumeView,
    m_after: Map<Seq<char>, Seq<u8>>,
    g_after: GraphView,
    i: IdentityId,
    rid: NodeRevisionId,
)
    requires
        merge_resume::resume_ran(x, phase, m, g, out, m_after, g_after),
        phase is EdgeBatch || phase is PointerSwap,
    ensures
        out.promoted.contains((i, rid)) <==> keys::bound(m, x.ctx.target_branch, i) == Some(rid) && exists|
            k: int,
        |
            0 <= k < out.classified.len() && (#[trigger] out.classified[k]).identity == i,
        out.orphaned.len() == 0,
        out.unresolved.len() == 0,
{
    lemma_already_bound(m, x.ctx.target_branch, out.classified, i, rid);
}

proof fn lemma_already_bound(
    m: Map<Seq<char>, Seq<u8>>,
    target: BranchId,
    classified: Seq<ClassifiedView>,
    i: IdentityId,
    rid: NodeRevisionId,
)
    ensures
        merge_resume::already_bound(m, target, classified).contains((i, rid)) <==> keys::bound(m, target, i)
            == Some(rid) && exists|k: int|
            0 <= k < classified.len() && (#[trigger] classified[k]).identity == i,
    decreases classified.len(),
{
    if classified.len() > 0 {
        let front = classified.drop_last();
        let c = classified.last();
        let a = merge_resume::already_bound(m, target, front);
        lemma_already_bound(m, target, front, i, rid);
        assert forall|k: int| 0 <= k < front.len() implies #[trigger] front[k] == classified[k] by {}
        assert(classified[classified.len() - 1] == c);
        if let Some(r) = keys::bound(m, target, c.identity) {
            let e = (c.identity, r);
            assert(a.push(e) =~= a + seq![e]);
            tree_laws::lemma_both(a, seq![e], (i, rid));
            tree_laws::lemma_one(e, (i, rid));
        }
        if exists|k: int| 0 <= k < front.len() && (#[trigger] front[k]).identity == i {
            let k = choose|k: int| 0 <= k < front.len() && (#[trigger] front[k]).identity == i;
            assert(classified[k].identity == i);
        }
        if exists|k: int| 0 <= k < classified.len() && (#[trigger] classified[k]).identity == i {
            let k = choose|k: int| 0 <= k < classified.len() && (#[trigger] classified[k]).identity == i;
            if k < front.len() {
                assert(front[k].identity == i);
            }
        }
    }
}

/// Where a merge stops that is gone on with, it goes through the phases that are left: from its start it
/// puts in force what the verdicts on its classes say.
pub proof fn law_going_on_puts_in_force(
    x: ResumeInput,
    phase: SagaPhase,
    m: Map<Seq<char>, Seq<u8>>,
    g: GraphView,
    out: ResumeView,
    m_after: Map<Seq<char>, Seq<u8>>,
    g_after: GraphView,
    k: int,
    win: NodeRevisionId,
)
    requires
        merge_resume::resume_ran(x, phase, m, g, out, m_after, g_after),
        phase is Intent || phase is Classifying || phase is Promoting,
        0 <= k < out.classified.len(),
        merge_promote::verdict(out.classified[k], x.ctx.strategy) == Some(Some(win)),
    ensures
        out.promoted.contains((out.classified[k].identity, win)),
        out.unresolved.len() > 0 ==> x.ctx.strategy is None,
{
    let m0 = if phase is Promoting {
        m
    } else {
        merge_resume::phase_put(m, x.loses, x.merge_id, SagaPhase::Classifying)
    };
    let start = merge_promote::promotion_start(
        merge_resume::phase_put(m0, x.loses, x.merge_id, SagaPhase::Promoting),
        g,
    );
    lemma_promoted(start, x.ctx.target_branch, out.classified, x.ctx.strategy, k, win);
    if let Some(s) = x.ctx.strategy {
        merge_promote::law_strategy_resolves_all(start, x.ctx.target_branch, out.classified, s);
    }
}

proof fn lemma_promoted(
    st: Promotion,
    target: BranchId,
    classified: Seq<ClassifiedView>,
    strategy: Option<MergeStrategy>,
    k: int,
    win: NodeRevisionId,
)
    requires
        0 <= k < classified.len(),
        merge_promote::verdict(classified[k], strategy) == Some(Some(win)),
    ensures
        merge_promote::promoted_all(st, target, classified, strategy).promoted.contains(
            (classified[k].identity, win),
        ),
    decreases classified.len(),
{
    let front = classified.drop_last();
    let before = merge_promote::promoted_all(st, target, front, strategy);
    let after = merge_promote::promoted_all(st, target, classified, strategy);
    let p = (classified[k].identity, win);
    if k < front.len() {
        assert(front[k] == classified[k]);
        lemma_promoted(st, target, front, strategy, k, win);
        let i = choose|i: int| 0 <= i < before.promoted.len() && before.promoted[i] == p;
        assert(after.promoted[i] == p);
    } else {
        assert(after.promoted[before.promoted.len() as int] == p);
    }
}

/// Settling a merge that was cut off either goes on with it, which takes the lock of its target, or takes
/// it back; it is counted and listed once.
pub proof fn law_settled_merges_are_counted(
    env: RecoveryEnv,
    s: RecoveryState,
    merge_id: MergeId,
    ctx: MergeContext,
    t: RecoveryState,
)
    requires
        merge_recover::settled(env, s, merge_id, ctx, t),
    ensures
        t.resumed + t.compensated == s.resumed + s.compensated + 1,
        t.entries.len() == s.entries.len() + 1,
        t.entries.last().merge_id == merge_id,
        t.entries.last().compensated <==> t.compensated == s.compensated + 1,
        merge_lock::lock_holder(s.m, ctx.target_branch) != Some(merge_id) ==> t.compensated == s.compensated + 1,
        t.resumed == s.resumed + 1 ==> t.entries.last().from is Some,
{
}

/// A merge that is on record as committed is left alone when merges are settled; a record of no merge is
/// taken away, and one of a merge without a context is forgotten.
pub proof fn law_records_when_settling(
    env: RecoveryEnv,
    row: (String, Vec<u8>),
    s: RecoveryState,
    t: RecoveryState,
)
    requires
        merge_recover::recovery_step(env, row, s, t),
    ensures
        row.1@.len() > 0 && row.1@[0] == 6 ==> t == s,
        !(row.1@.len() > 0 && row.1@[0] == 6) ==> t.resumed + t.compensated == s.resumed + s.compensated + 1,
        !(row.1@.len() > 0 && row.1@[0] == 6) && saga::saga_merge(row.0@) is None ==> t.m == s.m.remove(row.0@)
            && t.g == s.g,
{
    if !(row.1@.len() > 0 && row.1@[0] == 6) {
        if let Some(b) = saga::saga_merge(row.0@) {
            let merge_id = MergeId(ids::array_of(b));
            if let Some(ctx) = merge_resume::context_at(s.m, merge_id) {
                law_settled_merges_are_counted(env, s, merge_id, ctx, t);
            }
        }
    }
}

/// A merge may begin if nobody holds its target and no patch is open on its paths; else it is told who
/// holds the target, or which paths are patched.
pub proof fn law_beginning_a_merge(
    m: Map<Seq<char>, Seq<u8>>,
    counts: Map<Seq<char>, u32>,
    branch: BranchId,
    merge_id: MergeId,
    paths: Seq<Seq<char>>,
    now_ms: u64,
    r: Result<(), MergePreflightError>,
    after: Map<Seq<char>, Seq<u8>>,
)
    requires
        merge_preflight::preflight(m, counts, branch, merge_id, paths, now_ms, r, after),
    ensures
        r is Ok <==> !m.contains_key(merge_lock::lock_key(branch)) && forall|i: int|
            0 <= i < paths.len() ==> !counts.contains_key(#[trigger] paths[i]),
        merge_lock::lock_holder(m, branch) matches Some(h) ==> r == Err::<(), MergePreflightError>(
            MergePreflightError::Locked { holder: h },
        ) && after == m,
        r is Ok ==> after.contains_key(merge_lock::lock_key(branch)) && after[merge_lock::lock_key(branch)]
            == merge_id.0@,
{
    merge_lock::lemma_lock_keys_apart(branch, merge_id);
    lemma_none_kept(paths, |p: Seq<char>| counts.contains_key(p));
}

proof fn lemma_none_kept<A>(s: Seq<A>, p: spec_fn(A) -> bool)
    ensures
        s.filter(p).len() == 0 <==> forall|i: int| 0 <= i < s.len() ==> !p(#[trigger] s[i]),
    decreases s.len(),
{
    reveal(Seq::filter);
    if s.len() > 0 {
        let front = s.drop_last();
        lemma_none_kept(front, p);
        assert forall|i: int| 0 <= i < front.len() implies #[trigger] front[i] == s[i] by {}
        assert(s[s.len() - 1] == s.last());
        if forall|i: int| 0 <= i < s.len() ==> !p(#[trigger] s[i]) {
            assert forall|i: int| 0 <= i < front.len() implies !p(#[trigger] front[i]) by {
                assert(front[i] == s[i]);
            }
        }
        if (forall|i: int| 0 <= i < front.len() ==> !p(#[trigger] front[i])) && !p(s.last()) {
            assert forall|i: int| 0 <= i < s.len() implies !p(#[trigger] s[i]) by {
                if i < front.len() {
                    assert(front[i] == s[i]);
                }
            }
        }
    }
}

/// What becomes of a speculative revision: confirmed, it is active; reverted, it is a tombstone since
/// then; the rest stays.
pub proof fn law_settled_revision(r: RevisionView, t: u64)
    ensures
        patches::revision_settled(r, None).status == RevisionStatus::Active,
        patches::revision_settled(r, Some(t)).status == RevisionStatus::Tombstone,
        patches::revision_settled(r, Some(t)).tombstoned_at_ms == Some(t),
        patches::revision_settled(r, None).revision_id == r.revision_id,
        patches::revision_settled(r, Some(t)).revision_id == r.revision_id,
        patches::revision_settled(r, None).body_hash == r.body_hash,
        patches::revision_settled(r, Some(t)).body_hash == r.body_hash,
        patches::revision_settled(r, None).tombstoned_at_ms == r.tombstoned_at_ms,
{
}

/// The revisions of a file in a status are those of the branch that stand in it and have the status.
pub proof fn law_revisions_in_a_file(
    revs: Seq<RevisionView>,
    branch: BranchId,
    path: Seq<char>,
    status: RevisionStatus,
    rid: NodeRevisionId,
)
    ensures
        patches::in_file(revs, branch, path, status).contains(rid) <==> exists|i: int|
            0 <= i < revs.len() && (#[trigger] revs[i]).revision_id == rid && revs[i].branch_id == branch
                && revs[i].file_path == path && revs[i].status == status,
    decreases revs.len(),
{
    if revs.len() > 0 {
        let front = revs.drop_last();
        let r = revs.last();
        let a = patches::in_file(front, branch, path, status);
        law_revisions_in_a_file(front, branch, path, status, rid);
        assert forall|i: int| 0 <= i < front.len() implies #[trigger] front[i] == revs[i] by {}
        assert(revs[revs.len() - 1] == r);
        assert(a.push(r.revision_id) =~= a + seq![r.revision_id]);
        tree_laws::lemma_both(a, seq![r.revision_id], rid);
        tree_laws::lemma_one(r.revision_id, rid);
        if a.contains(rid) {
            let i = choose|i: int|
                0 <= i < front.len() && (#[trigger] front[i]).revision_id == rid && front[i].branch_id == branch
                    && front[i].file_path == path && front[i].status == status;
            assert(revs[i].revision_id == rid);
        }
        if exists|i: int|
            0 <= i < revs.len() && (#[trigger] revs[i]).revision_id == rid && revs[i].branch_id == branch
                && revs[i].file_path == path && revs[i].status == status {
            let i = choose|i: int|
                0 <= i < revs.len() && (#[trigger] revs[i]).revision_id == rid && revs[i].branch_id == branch
                    && revs[i].file_path == path && revs[i].status == status;
            if i < front.len() {
                assert(front[i].revision_id == rid);
            }
        }
    }
}

/// The speculative revisions that a patch stands for: those of its files on the branch.
pub proof fn law_revisions_of_a_patch(
    g: GraphView,
    root: Seq<char>,
    paths: Seq<Seq<char>>,
    branch: BranchId,
    rid: NodeRevisionId,
)
    ensures
        patches::speculative_in(g, root, paths, branch).contains(rid) <==> exists|k: int, i: int|
            0 <= k < paths.len() && 0 <= i < g.revisions.len() && (#[trigger] g.revisions[i]).revision_id == rid
                && g.revisions[i].branch_id == branch && g.revisions[i].file_path == patches::below_root(
                root,
                #[trigger] paths[k],
            ) && g.revisions[i].status == RevisionStatus::Speculative,
    decreases paths.len(),
{
    if paths.len() > 0 {
        let front = paths.drop_last();
        let p = patches::below_root(root, paths.last());
        law_revisions_of_a_patch(g, root, front, branch, rid);
        law_revisions_in_a_file(g.revisions, branch, p, RevisionStatus::Speculative, rid);
        tree_laws::lemma_both(
            patches::speculative_in(g, root, front, branch),
            patches::in_file(g.revisions, branch, p, RevisionStatus::Speculative),
            rid,
        );
        assert forall|k: int| 0 <= k < front.len() implies #[trigger] front[k] == paths[k] by {}
        assert(paths[paths.len() - 1] == paths.last());
        if patches::speculative_in(g, root, front, branch).contains(rid) {
            let (k, i) = choose|k: int, i: int|
                0 <= k < front.len() && 0 <= i < g.revisions.len() && (#[trigger] g.revisions[i]).revision_id
                    == rid && g.revisions[i].branch_id == branch && g.revisions[i].file_path
                    == patches::below_root(root, #[trigger] front[k]) && g.revisions[i].status
                    == RevisionStatus::Speculative;
            assert(paths[k] == front[k]);
        }
        if exists|k: int, i: int|
            0 <= k < paths.len() && 0 <= i < g.revisions.len() && (#[trigger] g.revisions[i]).revision_id == rid
                && g.revisions[i].branch_id == branch && g.revisions[i].file_path == patches::below_root(
                root,
                #[trigger] paths[k],
            ) && g.revisions[i].status == RevisionStatus::Speculative {
            let (k, i) = choose|k: int, i: int|
                0 <= k < paths.len() && 0 <= i < g.revisions.len() && (#[trigger] g.revisions[i]).revision_id
                    == rid && g.revisions[i].branch_id == branch && g.revisions[i].file_path
                    == patches::below_root(root, #[trigger] paths[k]) && g.revisions[i].status
                    == RevisionStatus::Speculative;
            if k < front.len() {
                assert(front[k] == paths[k]);
            }
        }
    }
}

/// A path below the root is told from the root on, with slashes; any other as it is, with slashes.
pub proof fn law_path_below_the_root(root: Seq<char>, rest: Seq<char>, abs: Seq<char>)
    ensures
        patches::below_root(root, root + seq!['/'] + rest) == text::replaced(rest, '\\', '/'),
        !text::begins_with(abs, root) ==> patches::below_root(root, abs) == text::replaced(abs, '\\', '/'),
{
    let p = root + seq!['/'] + rest;
    assert(p =~= root + (seq!['/'] + rest));
    text_laws::law_parts_of_texts(Seq::empty(), root, seq!['/'] + rest, p);
    assert(p.skip(root.len() as int) =~= seq!['/'] + rest);
    assert((seq!['/'] + rest).skip(1) =~= rest);
}

/// What a patch makes of a file: a text that is no diff is the new file; a diff is applied.
pub proof fn law_patched_file(original: Seq<char>, input: Seq<char>)
    ensures
        ({
            let t = text::trim_start(input);
            let diff = text::begins_with(t, "--- "@) || text::begins_with(t, "diff "@) || text::begins_with(
                t,
                "*** "@,
            ) || text::contains_text(t, "\n@@ "@);
            &&& !diff ==> patches::patched_content(original, input) == Some(input)
            &&& diff ==> patches::patched_content(original, input) == patches::diff_applied(original, input)
        }),
{
}

/// What is logged when a patch is settled: nothing if it has no revisions; else one record more, which
/// says whether the patch was confirmed or reverted, and which revisions it had.
pub proof fn law_settling_is_logged(
    log: Seq<RecordView>,
    patch_id: u64,
    rids: Seq<NodeRevisionId>,
    t: u64,
    now_ms: u64,
)
    requires
        log.len() < u64::MAX,
    ensures
        rids.len() == 0 ==> patches::settling_logged(log, patch_id, rids, None, now_ms) == log,
        rids.len() > 0 ==> ({
            let kept = patches::settling_logged(log, patch_id, rids, None, now_ms);
            let gone = patches::settling_logged(log, patch_id, rids, Some(t), now_ms);
            &&& kept.len() == log.len() + 1 && kept.drop_last() == log
            &&& gone.len() == log.len() + 1 && gone.drop_last() == log
            &&& kept.last().kind == (MutationKind::PromoteSpeculative { patch_id })
            &&& gone.last().kind == (MutationKind::RevertSpeculative { patch_id })
            &&& kept.last().phase == MutationPhase::Committed && gone.last().phase == MutationPhase::Committed
            &&& kept.last().affected == rids && gone.last().affected == rids
            &&& kept.last().log_id == log.len() + 1
            &&& kept.last().created_at_ms == now_ms
        }),
{
    if rids.len() > 0 {
        assert(patches::settling_logged(log, patch_id, rids, None, now_ms).drop_last() =~= log);
        assert(patches::settling_logged(log, patch_id, rids, Some(t), now_ms).drop_last() =~= log);
    }
}

/// The newest patch on a path is the open one with the highest number that touches it; there is none if
/// none touches it.
pub proof fn law_newest_patch(open: Map<u64, PatchView>, root: Seq<char>, path: Seq<char>, o: u64)
    ensures
        patch_commands::newest(open, root, path) matches Some(id) ==> open.contains_key(id) && (
        open[id].paths.contains(path) || open[id].paths.contains(optimistic_patcher::absolute(root, path))) && (
        open.contains_key(o) && open[o].paths.contains(path) ==> o <= id),
{
    if let Some(id) = patch_commands::newest(open, root, path) {
        assert(patch_commands::is_newest(open, root, path, id));
        if open.contains_key(o) && open[o].paths.contains(path) {
            assert(optimistic_patcher::patch_touches(open[o], root, path));
        }
    }
}

/// A path that was asked for: one from the top stays; another is below the root.
pub proof fn law_asked_path(root: Seq<char>, path: Seq<char>)
    requires
        path.len() > 0,
    ensures
        path[0] == '/' ==> write_commands::asked_path(root, path) == path,
        path[0] != '/' && root.len() > 0 && root.last() != '/' ==> write_commands::asked_path(root, path) == root
            + "/"@ + path,
        path[0] != '/' && root.len() > 0 && root.last() == '/' ==> write_commands::asked_path(root, path) == root
            + path,
{
    reveal_strlit("/");
    assert("/"@ =~= seq!['/']);
}

/// What lies below a root: the root itself, and what has the root, a slash and something.
pub proof fn law_below_a_root(root: Seq<char>, rest: Seq<char>, path: Seq<char>)
    ensures
        write_commands::lies_below(root, root),
        write_commands::lies_below(root, root + "/"@ + rest),
        !text::begins_with(path, root) ==> !write_commands::lies_below(root, path),
        root.len() > 0 && root.last() != '/' && rest.len() > 0 && rest[0] != '/' ==> !write_commands::lies_below(
            root,
            root + rest,
        ),
{
    reveal_strlit("/");
    text_laws::law_parts_of_texts(Seq::empty(), root + "/"@, rest, path);
    text_laws::law_parts_of_texts(Seq::empty(), root, rest, root + rest);
    if !text::begins_with(path, root) {
        if path == root {
            assert(path.subrange(0, root.len() as int) =~= root);
        }
        if text::begins_with(path, root + "/"@) {
            assert(path.subrange(0, root.len() as int) =~= path.subrange(0, (root + "/"@).len() as int).subrange(
                0,
                root.len() as int,
            ));
            assert((root + "/"@).subrange(0, root.len() as int) =~= root);
        }
    }
    if root.len() > 0 && root.last() != '/' && rest.len() > 0 && rest[0] != '/' {
        let p = root + rest;
        assert(p.len() != root.len());
        if text::begins_with(p, root + "/"@) {
            assert(p.subrange(0, (root + "/"@).len() as int)[root.len() as int] == '/');
            assert(p[root.len() as int] == rest[0]);
        }
    }
}

/// The files that are collected are those that end like Python or TypeScript, in order.
pub proof fn law_collected_endings(files: Seq<Seq<char>>)
    ensures
        repo_bootstrap::with_extension(files, repo_bootstrap::indexed_extensions()) == files.filter(
            |f: Seq<char>|
                text::finishes_with(f, ".py"@) || text::finishes_with(f, ".ts"@) || text::finishes_with(
                    f,
                    ".tsx"@,
                ),
        ),
    decreases files.len(),
{
    reveal(Seq::filter);
    if files.len() > 0 {
        let f = files.last();
        let e = repo_bootstrap::indexed_extensions();
        law_collected_endings(files.drop_last());
        reveal_strlit(".py");
        reveal_strlit(".ts");
        reveal_strlit(".tsx");
        reveal_strlit("py");
        reveal_strlit("ts");
        reveal_strlit("tsx");
        assert(seq!['.'] + e[0] =~= ".py"@);
        assert(seq!['.'] + e[1] =~= ".ts"@);
        assert(seq!['.'] + e[2] =~= ".tsx"@);
        if repo_bootstrap::has_extension(f, e) {
            let i = choose|i: int| 0 <= i < e.len() && text::finishes_with(f, seq!['.'] + #[trigger] e[i]);
            assert(i == 0 || i == 1 || i == 2);
        }
    }
}

/// What a link of a chain says: the first begins with nothing, each other with the digest of the one
/// before; and its digest is that of its number, of what it begins with, and of its summary.
pub proof fn law_right_link(s: Seq<EpochView>, i: int, prev: Seq<char>, dig: Seq<char>, summary: Seq<char>)
    requires
        0 <= i < s.len(),
        s[i].prev == Some(prev),
        s[i].digest == Some(dig),
        s[i].summary == Some(summary),
        i > 0 ==> s[i - 1].digest is Some,
    ensures
        audit::link_right(s, i) <==> dig == audit::epoch_digest(s[i].id, prev, summary) && prev == (if i == 0 {
            Seq::empty()
        } else {
            s[i - 1].digest->0
        }),
{
}

/// An epoch is sealed once there are enough records, or once enough time has passed; then the count
/// starts anew, and the next epoch has the next number and begins with the digest of this one.
pub proof fn law_sealing(s: SinkView, summary: Seq<char>, elapsed_ms: u64)
    ensures
        audit::seal_due(s, elapsed_ms) <==> s.count >= s.min_records || elapsed_ms >= s.interval_ms,
        audit::sink_sealed(s, summary).count == 0,
        s.next_id < u64::MAX ==> audit::sink_sealed(s, summary).next_id == s.next_id + 1,
        audit::sink_sealed(s, summary).last_hash == audit::epoch_digest(s.next_id, s.last_hash, summary),
        audit::sink_sealed(s, summary).path == s.path,
        audit::sink_sealed(s, summary).min_records == s.min_records,
        audit::sink_sealed(s, summary).interval_ms == s.interval_ms,
{
}

/// The revision that is in force for a symbol on a branch: the one that stands for it, if that is active
/// or speculative.
pub proof fn law_in_force(g: GraphView, branch: BranchId, iid: IdentityId, r: RevisionView)
    ensures
        g.primary(branch, iid) == Some(r) && r.status == RevisionStatus::Active ==> binding_sync::in_force(
            g,
            branch,
            iid,
        ) == Some(r.revision_id),
        g.primary(branch, iid) == Some(r) && r.status == RevisionStatus::Speculative ==> binding_sync::in_force(
            g,
            branch,
            iid,
        ) == Some(r.revision_id),
        g.primary(branch, iid) == Some(r) && (r.status == RevisionStatus::Tombstone || r.status
            == RevisionStatus::Orphaned) ==> binding_sync::in_force(g, branch, iid) is None,
        g.primary(branch, iid) is None ==> binding_sync::in_force(g, branch, iid) is None,
{
}

/// A branch can be made that has a name and is not its own parent; no other.
pub proof fn law_branch_can_be_made(name: Seq<char>, parent: BranchId, child: BranchId)
    ensures
        branches::can_create(name, parent, child) <==> text::trimmed(name).len() > 0 && child != parent,
{
}

/// The files that a merge looks at: those of the revisions that are bound, as far as the graph has them.
pub proof fn law_bound_files(g: GraphView, pairs: Seq<(IdentityId, NodeRevisionId)>, path: Seq<char>)
    ensures
        merge_branch::bound_files(g, pairs).contains(path) <==> exists|i: int|
            0 <= i < pairs.len() && g.rev((#[trigger] pairs[i]).1) is Some && g.rev(pairs[i].1)->0.file_path
                == path,
    decreases pairs.len(),
{
    if pairs.len() > 0 {
        let front = pairs.drop_last();
        let a = merge_branch::bound_files(g, front);
        law_bound_files(g, front, path);
        assert forall|i: int| 0 <= i < front.len() implies #[trigger] front[i] == pairs[i] by {}
        assert(pairs[pairs.len() - 1] == pairs.last());
        if let Some(r) = g.rev(pairs.last().1) {
            assert(a.push(r.file_path) =~= a + seq![r.file_path]);
            tree_laws::lemma_both(a, seq![r.file_path], path);
            tree_laws::lemma_one(r.file_path, path);
        }
        if a.contains(path) {
            let i = choose|i: int|
                0 <= i < front.len() && g.rev((#[trigger] front[i]).1) is Some && g.rev(front[i].1)->0.file_path
                    == path;
            assert(pairs[i] == front[i]);
        }
        if exists|i: int|
            0 <= i < pairs.len() && g.rev((#[trigger] pairs[i]).1) is Some && g.rev(pairs[i].1)->0.file_path
                == path {
            let i = choose|i: int|
                0 <= i < pairs.len() && g.rev((#[trigger] pairs[i]).1) is Some && g.rev(pairs[i].1)->0.file_path
                    == path;
            if i < front.len() {
                assert(front[i] == pairs[i]);
            }
        }
    }
}

} // verus!
