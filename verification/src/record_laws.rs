//! What is read from records, from files and from requests.

use crate::audit;
use crate::audit::EpochView;
use crate::bindings;
use crate::bytes;
use crate::file_index;
use crate::file_index::{FactView, ImportView, SymbolView};
use crate::graph::{GraphView, InMemoryGraph, NodeKind, RevisionStatus, RevisionView};
use crate::hex;
use crate::ids;
use crate::ids::{BranchId, IdentityId, MergeId, NodeRevisionId};
use crate::json;
use crate::json::JsonTree;
use crate::language;
use crate::merge_branch;
use crate::merge_branch::{MergeOutcome, MergeRequest, MergeState, merge_branch};
use crate::merge_classify;
use crate::merge_classify::{ClassifiedView, MergeIdentityClass, MergeStrategy, ReportView};
use crate::merge_edges;
use crate::merge_gate;
use crate::merge_lock;
use crate::merge_metrics;
use crate::merge_metrics::MergeMetricsRecord;
use crate::merge_promote;
use crate::merge_resume;
use crate::merge_saga_batch;
use crate::merge_saga_batch::BatchView;
use crate::metadata_store;
use crate::metadata_store::{MetadataBackendKind, StoredRow};
use crate::migration;
use crate::optimistic_patcher;
use crate::optimistic_patcher::{OptimisticPatchError, PatchView};
use crate::patch_commands;
use crate::patch_commands::PatchState;
use crate::patches;
use crate::path_lease;
use crate::path_lease::{LeaseError, SessionId};
use crate::persistence;
use crate::persistence::{Attempt, RisRow};
use crate::python_indexer;
use crate::queries;
use crate::ranking_policy;
use crate::ranking_policy::EdgeTypeWeights;
use crate::regexes;
use crate::regexes::CaptureView;
use crate::repo_bootstrap;
use crate::revision_cow;
use crate::revision_cow::Layer;
use crate::rust_indexer;
use crate::saga;
use crate::security::AuthError;
use crate::semantic_search;
use crate::semantic_search::RowView;
use crate::spans;
use crate::status;
use crate::symbol_body;
use crate::syntax;
use crate::syntax::{Grammar, TreeView};
use crate::text;
use crate::time_travel;
use crate::tombstone_gc;
use crate::tombstone_gc::DeleteReason;
use crate::tree_laws;
use vstd::prelude::*;

verus! {

proof fn lemma_pushed<A>(s: Seq<A>, e: A, x: A)
    ensures
        s.push(e).contains(x) <==> s.contains(x) || x == e,
{
    assert(s.push(e) =~= s + seq![e]);
    tree_laws::lemma_both(s, seq![e], x);
    tree_laws::lemma_one(e, x);
}

/// The epochs on record are those that some row tells.
pub proof fn law_epochs_on_record(rows: Seq<(String, Vec<u8>)>, e: EpochView)
    ensures
        audit::epochs_in(rows).contains(e) <==> exists|r: (String, Vec<u8>)| #[trigger]
            rows.contains(r) && audit::epoch_of(r.0@, r.1@) == Some(e),
    decreases rows.len(),
{
    if rows.len() > 0 {
        let front = rows.drop_last();
        let l = rows.last();
        law_epochs_on_record(front, e);
        assert forall|c: (String, Vec<u8>)| #[trigger] rows.contains(c) implies (front.contains(c) || c == l) by {
            tree_laws::lemma_ends(rows, c);
        }
        assert forall|c: (String, Vec<u8>)| #[trigger] front.contains(c) implies rows.contains(c) by {
            tree_laws::lemma_ends(rows, c);
        }
        tree_laws::lemma_ends(rows, l);
        match audit::epoch_of(l.0@, l.1@) {
            Some(x) => {
                lemma_pushed(audit::epochs_in(front), x, e);
            },
            None => {},
        }
    }
}

/// An epoch has the number in its key and the texts in its value.
pub proof fn law_epoch_of_a_row(key: Seq<char>, value: Seq<u8>, e: EpochView, t: JsonTree, id: u64)
    requires
        audit::epoch_of("audit:epoch:"@ + key, value) == Some(e),
        hex::decimal_u64(key) == Some(id),
        json::tree_of_bytes(value) == Some(t),
    ensures
        e.id == id,
        e.prev == audit::member_text(t, "prev"@),
        e.digest == audit::member_text(t, "digest"@),
        e.summary == audit::member_text(t, "summary"@),
{
    assert(("audit:epoch:"@ + key).skip("audit:epoch:"@.len() as int) =~= key);
}

/// An identity goes by its key alone, or by the key and what tells it apart.
pub proof fn law_identity_names(key: Seq<char>, a: Seq<char>, b: Seq<char>)
    ensures
        file_index::identity_name(key, Seq::empty()) == key,
        a.len() > 0 ==> file_index::identity_name(key, a) == key + seq!['#'] + a,
        file_index::identity_name(key, a) == file_index::identity_name(key, b) ==> a == b,
{
    reveal_strlit("#");
    assert("#"@ =~= seq!['#']);
    let k = key.len() as int;
    if a.len() > 0 {
        assert(file_index::identity_name(key, a).skip(k + 1) =~= a);
    }
    if b.len() > 0 {
        assert(file_index::identity_name(key, b).skip(k + 1) =~= b);
    }
}

/// A merge works on the target, which is also its base, and takes in the source.
pub proof fn law_sides_of_a_merge(
    id: MergeId,
    source: BranchId,
    target: BranchId,
    strategy: Option<MergeStrategy>,
)
    ensures
        ({
            let c = merge_branch::merge_context(id, source, target, strategy);
            &&& c.ours_branch == target && c.base_branch == target && c.target_branch == target
            &&& c.theirs_branch == source
            &&& c.merge_id == id && c.strategy == strategy
        }),
{
}

/// A request with a malformed id changes nothing; a request that is let in has well-formed ids and answers
/// with the merge it names, or with the one that the time gives; one that is not let in touches neither the
/// graph nor the log.
pub proof fn law_requested_merge(
    q: MergeRequest,
    before: MergeState,
    r: Result<(MergeId, MergeOutcome), AuthError>,
    after: MergeState,
)
    requires
        merge_branch::merge_requested(q, before, r, after),
    ensures
        hex::strict_id(q.source_hex) is None || hex::strict_id(q.target_hex) is None || (q.merge_hex is Some
            && hex::strict_id(q.merge_hex->0) is None) ==> after == before && r == Err::<
            (MergeId, MergeOutcome),
            AuthError,
        >(AuthError::InvalidInput),
        r is Ok && q.merge_hex is Some ==> hex::strict_id(q.merge_hex->0) == Some((r->Ok_0).0.0@),
        r is Ok && q.merge_hex is None ==> (r->Ok_0).0.0@ == bytes::le(q.now_ms as nat, 8) + bytes::le(
            q.now_ms as nat,
            8,
        ).reverse(),
        r is Err ==> after.g == before.g && after.log == before.log && after.jobs == before.jobs,
{
}

/// A rename signal comes first; changes on both sides are left open; all else is clean.
pub proof fn law_signals_of_a_change(ours: bool, theirs: bool, rename: bool)
    ensures
        merge_classify::stub_class(ours, theirs, rename) == MergeIdentityClass::RenamedCandidate <==> rename,
        merge_classify::stub_class(ours, theirs, rename) == MergeIdentityClass::BothModifiedUnresolved <==> ours
            && theirs && !rename,
        merge_classify::stub_class(ours, theirs, rename) == MergeIdentityClass::Clean <==> !rename && !(ours
            && theirs),
{
}

/// A file is touched by a merge where one of the revisions of some entry stands in it.
pub proof fn law_touched_files(
    g: GraphView,
    s: Seq<ClassifiedView>,
    k: int,
    rid: NodeRevisionId,
    rev: RevisionView,
)
    requires
        0 <= k < s.len(),
        s[k].base == Some(rid) || s[k].ours == Some(rid) || s[k].theirs == Some(rid),
        g.rev(rid) == Some(rev),
        rev.file_path.len() > 0,
    ensures
        merge_promote::touched(g, s, rev.file_path),
        !merge_promote::touched(g, s, Seq::empty()),
{
    assert(merge_promote::entry_touches(g, s[k], rev.file_path));
}

/// Batches are applied up to the first whose revision is missing.
pub proof fn law_applied_batches(g: GraphView, batches: Seq<BatchView>, k: int)
    ensures
        merge_saga_batch::applicable(g, batches) <= batches.len(),
        0 <= k < merge_saga_batch::applicable(g, batches) ==> g.rev(batches[k].target) is Some,
        merge_saga_batch::applicable(g, batches) < batches.len() ==> g.rev(
            batches[merge_saga_batch::applicable(g, batches) as int].target,
        ) is None,
    decreases batches.len(),
{
    if batches.len() > 0 {
        law_applied_batches(g, batches.drop_last(), k);
    }
}

/// Every batch is on record once it was kept, and is marked as done unless marks are lost.
pub proof fn law_kept_batches(
    m: Map<Seq<char>, Seq<u8>>,
    merge_id: MergeId,
    loses: bool,
    front: Seq<BatchView>,
    b: BatchView,
)
    ensures
        ({
            let r = merge_saga_batch::all_kept(m, merge_id, loses, front.push(b));
            &&& saga::payload_key(merge_id, b.seq) != saga::marker_key(merge_id, b.seq) ==> r.contains_key(
                saga::payload_key(merge_id, b.seq),
            ) && r[saga::payload_key(merge_id, b.seq)] == merge_saga_batch::batch_bytes(b)
            &&& !loses ==> r.contains_key(saga::marker_key(merge_id, b.seq)) && r[saga::marker_key(merge_id, b.seq)]
                == seq![1u8]
            &&& forall|k: Seq<char>|
                k != saga::payload_key(merge_id, b.seq) && k != saga::marker_key(merge_id, b.seq) ==> (
                #[trigger] r.contains_key(k) <==> merge_saga_batch::all_kept(m, merge_id, loses, front).contains_key(k))
        }),
{
    assert(front.push(b).drop_last() =~= front);
}

/// Metadata is kept in a database exactly where the setting names one.
pub proof fn law_kinds_of_storage(setting: Option<Seq<char>>)
    ensures
        metadata_store::backend_of(setting) == MetadataBackendKind::Sqlite <==> setting == Some("sqlite"@) || setting
            == Some("sqlite3"@),
        metadata_store::backend_of(setting) == MetadataBackendKind::Json <==> setting != Some("sqlite"@) && setting
            != Some("sqlite3"@),
{
}

/// The rows of branches are those whose first column has the length of an id.
pub proof fn law_rows_of_branches(rows: Seq<StoredRow>, x: (BranchId, u64, Seq<u8>))
    ensures
        metadata_store::branch_rows_of(rows).contains(x) <==> exists|r: StoredRow| #[trigger]
            rows.contains(r) && r.0@.len() == 16 && x.0 == BranchId(ids::array_of(r.0@)) && x.1 == r.1 && x.2 == r.2@,
    decreases rows.len(),
{
    if rows.len() > 0 {
        let front = rows.drop_last();
        let l = rows.last();
        law_rows_of_branches(front, x);
        assert forall|c: StoredRow| #[trigger] rows.contains(c) implies (front.contains(c) || c == l) by {
            tree_laws::lemma_ends(rows, c);
        }
        assert forall|c: StoredRow| #[trigger] front.contains(c) implies rows.contains(c) by {
            tree_laws::lemma_ends(rows, c);
        }
        tree_laws::lemma_ends(rows, l);
        lemma_pushed(
            metadata_store::branch_rows_of(front),
            (BranchId(ids::array_of(l.0@)), l.1, l.2@),
            x,
        );
    }
}

/// A file holds a body where its directory and its name are the digits of a hash.
pub proof fn law_files_of_bodies(shard: Seq<u8>, name: Seq<u8>)
    ensures
        migration::body_hash_of(shard, name) is Some <==> shard.len() == 2 && name.len() == 62 && !(name.skip(58)
            == seq![46u8, 116u8, 109u8, 112u8]),
        migration::body_hash_of(shard, name) is Some ==> migration::body_hash_of(shard, name)->0.len() == 32,
{
}

/// The patches whose time is up are those that were opened too long ago.
pub proof fn law_expired_patches(open: Map<u64, PatchView>, ids: Seq<u64>, ttl_secs: u64, now_ms: u64, id: u64)
    requires
        optimistic_patcher::expired_at(open, ids, ttl_secs, now_ms),
    ensures
        ids.contains(id) ==> open.contains_key(id) && open[id].created_ms + ttl_secs * 1000 < now_ms,
        open.contains_key(id) && open[id].created_ms + ttl_secs * 1000 < now_ms ==> ids.contains(id),
        open.contains_key(id) && open[id].created_ms + ttl_secs * 1000 >= now_ms ==> !ids.contains(id),
{
}

/// The rows that are left when a session goes are those of the other sessions.
pub proof fn law_rows_of_others(rows: Seq<(u64, PatchView)>, session: SessionId, x: (u64, PatchView))
    ensures
        optimistic_patcher::rows_not_of(rows, session).contains(x) <==> rows.contains(x) && x.1.session != session,
    decreases rows.len(),
{
    if rows.len() > 0 {
        let front = rows.drop_last();
        law_rows_of_others(front, session, x);
        tree_laws::lemma_ends(rows, x);
        lemma_pushed(optimistic_patcher::rows_not_of(front, session), rows.last(), x);
    }
}

/// The paths of patches are listed with the numbers of their patches.
pub proof fn law_listed_paths(rows: Seq<(u64, PatchView)>, id: u64, p: Seq<char>)
    ensures
        optimistic_patcher::listed_paths(rows).contains((id, p)) <==> exists|r: (u64, PatchView)| #[trigger]
            rows.contains(r) && r.0 == id && r.1.paths.contains(p),
    decreases rows.len(),
{
    if rows.len() > 0 {
        let front = rows.drop_last();
        let l = rows.last();
        law_listed_paths(front, id, p);
        assert forall|c: (u64, PatchView)| #[trigger] rows.contains(c) implies (front.contains(c) || c == l) by {
            tree_laws::lemma_ends(rows, c);
        }
        assert forall|c: (u64, PatchView)| #[trigger] front.contains(c) implies rows.contains(c) by {
            tree_laws::lemma_ends(rows, c);
        }
        tree_laws::lemma_ends(rows, l);
        let b = l.1.paths.map_values(|p: Seq<char>| (l.0, p));
        tree_laws::lemma_both(optimistic_patcher::listed_paths(front), b, (id, p));
        if b.contains((id, p)) {
            let i = choose|i: int| 0 <= i < b.len() && b[i] == (id, p);
            assert(l.1.paths[i] == p);
        }
        if l.0 == id && l.1.paths.contains(p) {
            let i = choose|i: int| 0 <= i < l.1.paths.len() && l.1.paths[i] == p;
            assert(b[i] == (id, p));
        }
    }
}

/// A refused patch is forbidden where another holds a path or a merge holds the branch; else the request
/// itself is at fault.
pub proof fn law_refused_patches(e: OptimisticPatchError)
    ensures
        e == OptimisticPatchError::MergeLocked ==> patches::patch_refusal(e) == AuthError::Forbidden,
        e matches OptimisticPatchError::Lease(LeaseError::Conflict { .. }) ==> patches::patch_refusal(e)
            == AuthError::Forbidden,
        e != OptimisticPatchError::MergeLocked && !(e matches OptimisticPatchError::Lease(
            LeaseError::Conflict { .. },
        )) ==> patches::patch_refusal(e) == AuthError::InvalidInput,
{
}

/// The mark of a patch bears its number; one that is still being written is no mark.
pub proof fn law_confirmation_marks(number: Seq<char>, open: Set<u64>, id: u64)
    ensures
        !text::contains_text(number, ".tmp"@) ==> patches::mark_number(".cis_confirm_"@ + number) == Some(number),
        text::contains_text(number, ".tmp"@) ==> patches::mark_number(".cis_confirm_"@ + number) is None,
        !text::begins_with(number, ".cis_confirm_"@) ==> patches::mark_number(number) is None,
        hex::decimal_u64(number) == Some(id) ==> (patches::mark_stale(open, number) <==> !open.contains(id)),
        hex::decimal_u64(number) is None ==> patches::mark_stale(open, number),
{
    let p = ".cis_confirm_"@;
    assert((p + number).skip(p.len() as int) =~= number);
    assert((p + number).take(p.len() as int) =~= p);
}

/// Files that are read again are those of the patch that are indexed.
pub proof fn law_files_read_again(root: Seq<char>, paths: Seq<Seq<char>>, rel: Seq<char>)
    ensures
        patches::read_again(root, paths).contains(rel) <==> language::indexable(rel) && exists|p: Seq<char>| #[trigger]
            paths.contains(p) && rel == patches::below_root(root, p),
    decreases paths.len(),
{
    if paths.len() > 0 {
        let front = paths.drop_last();
        let l = paths.last();
        law_files_read_again(root, front, rel);
        assert forall|c: Seq<char>| #[trigger] paths.contains(c) implies (front.contains(c) || c == l) by {
            tree_laws::lemma_ends(paths, c);
        }
        assert forall|c: Seq<char>| #[trigger] front.contains(c) implies paths.contains(c) by {
            tree_laws::lemma_ends(paths, c);
        }
        tree_laws::lemma_ends(paths, l);
        lemma_pushed(patches::read_again(root, front), patches::below_root(root, l), rel);
    }
}

/// Putting revisions into a status touches these revisions and nothing of them but the status.
pub proof fn law_marked_revisions(r: RevisionView, rids: Seq<NodeRevisionId>, status: RevisionStatus)
    ensures
        ({
            let x = patch_commands::after_marking(r, rids, status);
            &&& rids.contains(r.revision_id) ==> x.status == status
            &&& !rids.contains(r.revision_id) ==> x == r
            &&& x.revision_id == r.revision_id && x.identity_id == r.identity_id && x.branch_id == r.branch_id
            &&& x.file_path == r.file_path && x.body_hash == r.body_hash && x.qualified_name == r.qualified_name
        }),
{
}

/// The bindings that are taken from revisions are those of the revisions of the branch.
pub proof fn law_pairs_of_a_branch(
    revs: Seq<RevisionView>,
    branch: BranchId,
    iid: IdentityId,
    rid: NodeRevisionId,
)
    ensures
        persistence::branch_pairs(revs, branch).contains((iid, rid)) <==> exists|r: RevisionView| #[trigger]
            revs.contains(r) && r.branch_id == branch && r.identity_id == iid && r.revision_id == rid,
    decreases revs.len(),
{
    if revs.len() > 0 {
        let front = revs.drop_last();
        let l = revs.last();
        law_pairs_of_a_branch(front, branch, iid, rid);
        assert forall|c: RevisionView| #[trigger] revs.contains(c) implies (front.contains(c) || c == l) by {
            tree_laws::lemma_ends(revs, c);
        }
        assert forall|c: RevisionView| #[trigger] front.contains(c) implies revs.contains(c) by {
            tree_laws::lemma_ends(revs, c);
        }
        tree_laws::lemma_ends(revs, l);
        lemma_pushed(persistence::branch_pairs(front, branch), (l.identity_id, l.revision_id), (iid, rid));
    }
}

/// Binding pairs binds each identity to the revision that came last, and leaves the layers below alone.
pub proof fn law_bound_pairs(
    layers: Seq<Layer>,
    m: Map<Seq<char>, Seq<u8>>,
    pairs: Seq<(IdentityId, NodeRevisionId)>,
    k: int,
)
    requires
        layers.len() > 0,
    ensures
        ({
            let r = persistence::pairs_bound(layers, m, pairs);
            &&& r.0.len() == layers.len()
            &&& r.0[0].branch == layers[0].branch
            &&& forall|i: int| 0 < i < layers.len() ==> #[trigger] r.0[i] == layers[i]
            &&& 0 <= k < pairs.len() && (forall|j: int| k < j < pairs.len() ==> (#[trigger] pairs[j]).0 != pairs[k].0)
                ==> r.0[0].local.contains_key(pairs[k].0) && r.0[0].local[pairs[k].0] == pairs[k].1
            &&& forall|i: IdentityId|
                (forall|j: int| 0 <= j < pairs.len() ==> (#[trigger] pairs[j]).0 != i) ==> (
                #[trigger] r.0[0].local.contains_key(i) <==> layers[0].local.contains_key(i))
        }),
    decreases pairs.len(),
{
    if pairs.len() > 0 {
        let front = pairs.drop_last();
        law_bound_pairs(layers, m, front, k);
        assert(forall|j: int| 0 <= j < front.len() ==> front[j] == #[trigger] pairs[j]);
        assert(pairs[pairs.len() - 1] == pairs.last());
    }
}

/// The graph that is taken over is the first that could be loaded; the reason is told where none could.
pub proof fn law_loaded_graph(
    old_graph: GraphView,
    first: Attempt<InMemoryGraph>,
    second: Attempt<InMemoryGraph>,
    g: InMemoryGraph,
)
    ensures
        first == Attempt::Loaded(g) ==> persistence::graph_taken(old_graph, first, second) == g@
            && persistence::graph_reason(first, second) is None,
        !(first matches Attempt::Loaded(_)) && second == Attempt::Loaded(g) ==> persistence::graph_taken(
            old_graph,
            first,
            second,
        ) == g@,
        !(first matches Attempt::Loaded(_)) && !(second matches Attempt::Loaded(_)) ==> persistence::graph_taken(
            old_graph,
            first,
            second,
        ) == old_graph,
        second matches Attempt::Failed(e) ==> (first matches Attempt::Loaded(_) || persistence::graph_reason(
            first,
            second,
        ) == Some(e@)),
        first matches Attempt::Failed(e) ==> persistence::graph_reason(first, second) is Some,
        first matches Attempt::Absent ==> (second matches Attempt::Failed(_) || persistence::graph_reason(first, second)
            is None),
{
}

/// What a text stands for: the bound revision of that id where it is an id, else the first bound one by name.
pub proof fn law_target_of_a_text(
    g: GraphView,
    pairs: Seq<(IdentityId, NodeRevisionId)>,
    branch: BranchId,
    target: Seq<char>,
    r: Option<NodeRevisionId>,
    k: int,
)
    requires
        queries::target_among(g, pairs, branch, target, r),
    ensures
        hex::strict_id(text::trimmed(target)) is Some && r is Some ==> Some((r->0).0@) == hex::strict_id(
            text::trimmed(target),
        ),
        hex::strict_id(text::trimmed(target)) is Some && 0 <= k < pairs.len() && Some(pairs[k].1.0@) == hex::strict_id(
            text::trimmed(target),
        ) ==> r is Some,
        hex::strict_id(text::trimmed(target)) is None && r is Some ==> queries::bound_named(
            g,
            pairs,
            branch,
            text::trimmed(target),
        ).len() > 0 && r == Some(queries::bound_named(g, pairs, branch, text::trimmed(target))[0].0),
        hex::strict_id(text::trimmed(target)) is None && r is None ==> queries::bound_named(
            g,
            pairs,
            branch,
            text::trimmed(target),
        ).len() == 0,
{
    if 0 <= k < pairs.len() {
        assert(queries::binds_revision(pairs, pairs[k].1));
    }
}

/// A merge is under way where the branch is held back or locked; a walk takes at most three steps; a budget
/// is at least one.
pub proof fn law_bounds_of_queries(m: Map<Seq<char>, Seq<u8>>, branch: BranchId, hops: u32, budget: usize)
    ensures
        merge_lock::lock_holder(m, branch) is Some ==> queries::merge_under_way(m, branch),
        merge_gate::query_blocked(m, branch) ==> queries::merge_under_way(m, branch),
        queries::merge_under_way(m, branch) ==> merge_lock::lock_holder(m, branch) is Some
            || merge_gate::query_blocked(m, branch),
        queries::at_most_three(hops) <= 3 && queries::at_most_three(hops) <= hops,
        queries::at_most_three(hops) == hops || queries::at_most_three(hops) == 3,
        symbol_body::at_least_one(budget) >= 1 && symbol_body::at_least_one(budget) >= budget,
        symbol_body::at_least_one(budget) == budget || symbol_body::at_least_one(budget) == 1,
{
}

/// Weights are set in order: the last of a name counts.
pub proof fn law_weights_in_order<W>(w: EdgeTypeWeights<W>, front: Seq<(String, W)>, e: (String, W))
    ensures
        ranking_policy::weights_set(w, Seq::empty()) == w,
        ranking_policy::weights_set(w, front.push(e)) == ranking_policy::weight_set(
            ranking_policy::weights_set(w, front),
            e.0@,
            e.1,
        ),
{
    assert(front.push(e).drop_last() =~= front);
}

/// A file below a root goes by the rest of its path.
pub proof fn law_path_of_an_event(root: Seq<char>, rest: Seq<char>)
    requires
        root.len() > 0,
        root.last() != '/',
    ensures
        repo_bootstrap::event_path(root, root + seq!['/'] + rest) == Some(text::replaced(rest, '\\', '/')),
        repo_bootstrap::event_path(root + seq!['/'], root + seq!['/'] + rest) == Some(text::replaced(rest, '\\', '/')),
        !text::begins_with(rest, root) ==> repo_bootstrap::event_path(root, rest) is None,
{
    let dir = root + seq!['/'];
    assert((dir + rest).skip(dir.len() as int) =~= rest);
    assert((dir + rest).take(dir.len() as int) =~= dir);
    if text::begins_with(rest, dir) {
        assert(rest.take(root.len() as int) =~= rest.take(dir.len() as int).take(root.len() as int));
        assert(dir.take(root.len() as int) =~= root);
    }
}

/// Of two pairs for one identity the later counts.
pub proof fn law_bindings_of_pairs(pairs: Seq<([u8; 16], [u8; 16])>, k: int)
    requires
        0 <= k < pairs.len(),
        forall|j: int| k < j < pairs.len() ==> (#[trigger] pairs[j]).0 != pairs[k].0,
    ensures
        revision_cow::bindings_of_raw(pairs).contains_key(IdentityId(pairs[k].0)),
        revision_cow::bindings_of_raw(pairs)[IdentityId(pairs[k].0)] == NodeRevisionId(pairs[k].1),
    decreases pairs.len(),
{
    let front = pairs.drop_last();
    assert(forall|j: int| 0 <= j < front.len() ==> front[j] == #[trigger] pairs[j]);
    if k < front.len() {
        assert(pairs[pairs.len() - 1].0 != pairs[k].0);
        law_bindings_of_pairs(front, k);
    }
}

/// The rows whose bodies are among hashes, and the edges that leave revisions, are counted one by one.
pub proof fn law_counted_rows(rows: Seq<RowView>, hashes: Seq<[u8; 32]>)
    ensures
        semantic_search::rows_among(rows, hashes) == rows.filter(|r: RowView| hashes.contains(r.body_hash)).len(),
    decreases rows.len(),
{
    reveal(Seq::filter);
    if rows.len() > 0 {
        law_counted_rows(rows.drop_last(), hashes);
    }
}

/// The edges that leave two lists of revisions add up.
pub proof fn law_edges_leaving(g: GraphView, a: Seq<RevisionView>, r: RevisionView)
    ensures
        status::edges_leaving(g, a.push(r)) == status::edges_leaving(g, a) + g.out(r.revision_id).len(),
        status::edges_leaving(g, Seq::empty()) == 0,
{
    assert(a.push(r).drop_last() =~= a);
}

/// The text of a commit leads to the log id on record for it; an empty text is refused.
pub proof fn law_anchor_of_a_commit(m: Map<Seq<char>, Seq<u8>>, s: Seq<char>, n: u64)
    ensures
        text::trimmed(s).len() == 0 ==> time_travel::commit_anchor(m, s) == Err::<u64, Seq<char>>("empty commit_hash"@),
        text::trimmed(s).len() > 0 && time_travel::is_commit(time_travel::without_0x(text::trimmed(s)))
            && time_travel::log_of_commit(m, time_travel::without_0x(text::trimmed(s))) == Some(n)
            ==> time_travel::commit_anchor(m, s) == Ok::<u64, Seq<char>>(n),
        text::trimmed(s).len() > 0 && time_travel::is_commit(time_travel::without_0x(text::trimmed(s)))
            && time_travel::log_of_commit(m, time_travel::without_0x(text::trimmed(s))) is None
            ==> time_travel::commit_anchor(m, s) is Err,
        text::trimmed(s).len() > 0 && !time_travel::is_commit(time_travel::without_0x(text::trimmed(s)))
            ==> time_travel::commit_anchor(m, s) == time_travel::log_anchor(text::trimmed(s)),
{
}

/// A job is made for each revision, on the branch, for the same reason.
pub proof fn law_jobs_for_revisions(ids: Seq<NodeRevisionId>, branch: BranchId, i: int)
    ensures
        tombstone_gc::jobs_for(ids, branch).len() == ids.len(),
        0 <= i < ids.len() ==> tombstone_gc::jobs_for(ids, branch)[i].revision_id == ids[i]
            && tombstone_gc::jobs_for(ids, branch)[i].branch_id == branch && tombstone_gc::jobs_for(ids, branch)[i].reason
            == DeleteReason::TombstoneExpired,
{
}

/// Of the slowest merges none took less time than one behind it or one that is left out.
pub proof fn law_slowest_merges(records: Seq<MergeMetricsRecord>, places: Seq<usize>, a: int, b: int, i: int)
    requires
        merge_metrics::slowest(records, places),
        0 <= a < b < places.len(),
        0 <= i < records.len(),
        !places.contains(i as usize),
    ensures
        merge_metrics::duration_of(records[places[a] as int]) >= merge_metrics::duration_of(records[places[b] as int]),
        merge_metrics::duration_of(records[places[a] as int]) >= merge_metrics::duration_of(records[i]),
        merge_metrics::duration_of(records[places[b] as int]) >= merge_metrics::duration_of(records[i]),
        merge_metrics::duration_of(records[places[a] as int]) == merge_metrics::duration_of(records[places[b] as int])
            ==> places[a] < places[b],
        places[a] != places[b],
{
    let x = records[i];
}

/// The times of a phase are those of the merges that had it.
pub proof fn law_times_of_a_phase(records: Seq<MergeMetricsRecord>, phase: Seq<char>, t: u64)
    ensures
        merge_metrics::phase_times(records, phase).contains(t) <==> exists|r: MergeMetricsRecord| #[trigger]
            records.contains(r) && r.phase_durations_ms@.contains_key(phase) && r.phase_durations_ms@[phase] == t,
    decreases records.len(),
{
    if records.len() > 0 {
        let front = records.drop_last();
        let l = records.last();
        law_times_of_a_phase(front, phase, t);
        assert forall|c: MergeMetricsRecord| #[trigger] records.contains(c) implies (front.contains(c) || c == l) by {
            tree_laws::lemma_ends(records, c);
        }
        assert forall|c: MergeMetricsRecord| #[trigger] front.contains(c) implies records.contains(c) by {
            tree_laws::lemma_ends(records, c);
        }
        tree_laws::lemma_ends(records, l);
        lemma_pushed(merge_metrics::phase_times(front, phase), l.phase_durations_ms@[phase], t);
    }
}

/// The imports that are told by matches are those that the matches stand for, each by itself.
pub proof fn law_python_matched_imports(s: Seq<CaptureView>, content: Seq<char>, i: ImportView)
    ensures
        python_indexer::py_matched_imports(s, content, true).contains(i) <==> exists|c: CaptureView| #[trigger]
            s.contains(c) && python_indexer::py_from_import(c, content).contains(i),
        python_indexer::py_matched_imports(s, content, false).contains(i) <==> exists|c: CaptureView| #[trigger]
            s.contains(c) && python_indexer::py_module_import(c, content).contains(i),
    decreases s.len(),
{
    if s.len() > 0 {
        let front = s.drop_last();
        let l = s.last();
        law_python_matched_imports(front, content, i);
        assert forall|c: CaptureView| #[trigger] s.contains(c) implies (front.contains(c) || c == l) by {
            tree_laws::lemma_ends(s, c);
        }
        assert forall|c: CaptureView| #[trigger] front.contains(c) implies s.contains(c) by {
            tree_laws::lemma_ends(s, c);
        }
        tree_laws::lemma_ends(s, l);
        tree_laws::lemma_both(
            python_indexer::py_matched_imports(front, content, true),
            python_indexer::py_from_import(l, content),
            i,
        );
        tree_laws::lemma_both(
            python_indexer::py_matched_imports(front, content, false),
            python_indexer::py_module_import(l, content),
            i,
        );
    }
}

/// The bodies of functions at the top of a file start where a head names one of the functions, without a
/// point in its name.
pub proof fn law_python_bodies_start(
    heads: Seq<CaptureView>,
    functions: Seq<CaptureView>,
    at: usize,
    name: Seq<char>,
)
    ensures
        python_indexer::py_starts(heads, functions).contains((at, name)) <==> !text::contains_text(name, "."@) && (
        exists|f: CaptureView| #[trigger] functions.contains(f) && regexes::group_of(f, 1) == Some(name)) && exists|
            h: CaptureView,
        | #[trigger]
            heads.contains(h) && h.start == at && regexes::group_of(h, 1) == Some(name),
    decreases heads.len(),
{
    if exists|f: CaptureView| #[trigger] functions.contains(f) && regexes::group_of(f, 1) == Some(name) {
        let f = choose|f: CaptureView| #[trigger] functions.contains(f) && regexes::group_of(f, 1) == Some(name);
        let i = choose|i: int| 0 <= i < functions.len() && functions[i] == f;
        assert(regexes::group_of(functions[i], 1) == Some(name));
    }
    if python_indexer::py_names(functions, name) {
        let i = choose|i: int| 0 <= i < functions.len() && regexes::group_of(#[trigger] functions[i], 1) == Some(name);
        assert(functions.contains(functions[i]));
    }
    if heads.len() > 0 {
        let front = heads.drop_last();
        let l = heads.last();
        law_python_bodies_start(front, functions, at, name);
        assert forall|c: CaptureView| #[trigger] heads.contains(c) implies (front.contains(c) || c == l) by {
            tree_laws::lemma_ends(heads, c);
        }
        assert forall|c: CaptureView| #[trigger] front.contains(c) implies heads.contains(c) by {
            tree_laws::lemma_ends(heads, c);
        }
        tree_laws::lemma_ends(heads, l);
        match regexes::group_of(l, 1) {
            Some(n) => {
                lemma_pushed(python_indexer::py_starts(front, functions), (l.start, n), (at, name));
            },
            None => {},
        }
    }
}

/// The body of a function reaches from its start to the next one, the last to the end of the file.
pub proof fn law_python_bodies(content: Seq<char>, starts: Seq<(usize, Seq<char>)>, i: int, j: int)
    requires
        0 <= i < starts.len(),
        j == i + 1,
    ensures
        j < starts.len() ==> python_indexer::py_body_text(content, starts, i) == spans::text_between(
            content,
            starts[i].0 as nat,
            starts[j].0 as nat,
        ),
        j == starts.len() ==> python_indexer::py_body_text(content, starts, i) == spans::text_from(
            content,
            starts[i].0 as nat,
        ),
{
}

/// The calls of the functions at the top of a file are those that are found in their bodies, each on account
/// of its function.
pub proof fn law_python_top_calls(content: Seq<char>, starts: Seq<(usize, Seq<char>)>, n: int, f: FactView)
    requires
        0 <= n <= starts.len(),
    ensures
        python_indexer::py_top_calls(content, starts, n).contains(f) <==> exists|i: int|
            0 <= i < n && #[trigger] called_in_body(content, starts, i, f),
    decreases n,
{
    if n > 0 {
        law_python_top_calls(content, starts, n - 1, f);
        let body = python_indexer::py_body_text(content, starts, n - 1);
        let (from, caller) = starts[n - 1];
        let a = python_indexer::py_body_calls(
            regexes::captures_or_nothing(python_indexer::PY_CALL_PATTERN@, body),
            content,
            body,
            from,
            caller,
        );
        let b = python_indexer::py_body_member_calls(
            regexes::captures_or_nothing(python_indexer::PY_MEMBER_CALL_PATTERN@, body),
            content,
            from,
            caller,
        );
        let front = python_indexer::py_top_calls(content, starts, n - 1);
        tree_laws::lemma_both(front, a, f);
        tree_laws::lemma_both(front + a, b, f);
        assert(called_in_body(content, starts, n - 1, f) <==> a.contains(f) || b.contains(f));
        if exists|i: int| 0 <= i < n && #[trigger] called_in_body(content, starts, i, f) {
            let i = choose|i: int| 0 <= i < n && #[trigger] called_in_body(content, starts, i, f);
            assert(i == n - 1 || 0 <= i < n - 1);
        }
    }
}

/// A call is found in the body of the function at `i`.
pub open spec fn called_in_body(content: Seq<char>, starts: Seq<(usize, Seq<char>)>, i: int, f: FactView) -> bool {
    let body = python_indexer::py_body_text(content, starts, i);
    ||| python_indexer::py_body_calls(
        regexes::captures_or_nothing(python_indexer::PY_CALL_PATTERN@, body),
        content,
        body,
        starts[i].0,
        starts[i].1,
    ).contains(f)
    ||| python_indexer::py_body_member_calls(
        regexes::captures_or_nothing(python_indexer::PY_MEMBER_CALL_PATTERN@, body),
        content,
        starts[i].0,
        starts[i].1,
    ).contains(f)
}

/// A Python file is read by its tree where the tree has no error, and by matches where it has one or where
/// there is none; its imports are told by matches either way.
pub proof fn law_python_file(path: Seq<char>, content: Seq<char>, t: TreeView)
    ensures
        syntax::source_tree(Grammar::Python, content) == Some((false, t)) ==> python_indexer::py_file_index(
            path,
            content,
        ) == Some(python_indexer::py_index(path, content, t, python_indexer::py_imports(content))),
        syntax::source_tree(Grammar::Python, content) == Some((true, t)) ==> python_indexer::py_file_index(
            path,
            content,
        ) == python_indexer::py_regex_index(path, content),
        syntax::source_tree(Grammar::Python, content) is None ==> python_indexer::py_file_index(path, content)
            == python_indexer::py_regex_index(path, content),
        python_indexer::py_regex_index(path, content) is Some ==> python_indexer::py_regex_index(path, content)->0.imports
            == python_indexer::py_imports(content),
{
}

/// The imports of a Python file are those of either kind of match.
pub proof fn law_python_imports(content: Seq<char>, i: ImportView)
    requires
        regexes::regex_accepts(python_indexer::PY_IMPORT_PATTERN@),
        regexes::regex_accepts(python_indexer::PY_FROM_PATTERN@),
    ensures
        python_indexer::py_imports(content).contains(i) <==> (exists|c: CaptureView| #[trigger]
            regexes::regex_captures(python_indexer::PY_IMPORT_PATTERN@, content).contains(c)
                && python_indexer::py_module_import(c, content).contains(i)) || (exists|c: CaptureView| #[trigger]
            regexes::regex_captures(python_indexer::PY_FROM_PATTERN@, content).contains(c)
                && python_indexer::py_from_import(c, content).contains(i)),
{
    let a = regexes::regex_captures(python_indexer::PY_IMPORT_PATTERN@, content);
    let b = regexes::regex_captures(python_indexer::PY_FROM_PATTERN@, content);
    law_python_matched_imports(a, content, i);
    law_python_matched_imports(b, content, i);
    tree_laws::lemma_both(
        python_indexer::py_matched_imports(a, content, false),
        python_indexer::py_matched_imports(b, content, true),
        i,
    );
}

/// The functions at the top of a file are those without a point in their key.
pub proof fn law_python_top_functions(s: Seq<SymbolView>, key: Seq<char>)
    ensures
        python_indexer::top_keys(s).contains(key) <==> !text::contains_text(key, "."@) && exists|x: SymbolView| #[trigger]
            s.contains(x) && x.kind == NodeKind::Function && x.key == key,
    decreases s.len(),
{
    if s.len() > 0 {
        let front = s.drop_last();
        let l = s.last();
        law_python_top_functions(front, key);
        assert forall|c: SymbolView| #[trigger] s.contains(c) implies (front.contains(c) || c == l) by {
            tree_laws::lemma_ends(s, c);
        }
        assert forall|c: SymbolView| #[trigger] front.contains(c) implies s.contains(c) by {
            tree_laws::lemma_ends(s, c);
        }
        tree_laws::lemma_ends(s, l);
        lemma_pushed(python_indexer::top_keys(front), l.key, key);
    }
}

/// The module of a Rust file: `lib` and `main` stand for their directory, as `mod` does; any other file
/// for itself.
pub proof fn law_rust_module(path: Seq<char>)
    ensures
        ({
            let base = text::replaced(text::without_endings(path, ".rs"@), '/', '.');
            let r = rust_indexer::rs_module_key(path);
            &&& text::finishes_with(base, ".lib"@) ==> r + ".lib"@ == base
            &&& text::finishes_with(base, ".main"@) ==> r + ".main"@ == base
            &&& text::finishes_with(base, ".mod"@) ==> r == text::without_endings(base, ".mod"@)
            &&& !text::finishes_with(base, ".lib"@) && !text::finishes_with(base, ".main"@) && !text::finishes_with(
                base,
                ".mod"@,
            ) ==> r == base
        }),
{
    let base = text::replaced(text::without_endings(path, ".rs"@), '/', '.');
    reveal_strlit(".lib");
    reveal_strlit(".main");
    reveal_strlit(".mod");
    let n = base.len() as int;
    if text::finishes_with(base, ".lib"@) {
        assert(base.subrange(n - 4, n) =~= ".lib"@);
        assert(base[n - 1] == ".lib"@[3]);
        assert(base =~= base.take(n - 4) + ".lib"@);
    }
    if text::finishes_with(base, ".main"@) {
        assert(base.subrange(n - 5, n) =~= ".main"@);
        assert(base[n - 1] == ".main"@[4]);
        assert(base =~= base.take(n - 5) + ".main"@);
    }
    if text::finishes_with(base, ".mod"@) {
        assert(base.subrange(n - 4, n) =~= ".mod"@);
        assert(base[n - 1] == ".mod"@[3]);
    }
}

/// A commit has forty hexadecimal digits, in letters of either size.
pub proof fn law_name_of_a_commit(s: Seq<char>)
    ensures
        time_travel::is_commit(s) <==> s.len() == 40 && forall|i: int|
            0 <= i < 40 ==> ('0' <= #[trigger] s[i] <= '9' || 'a' <= s[i] <= 'f' || 'A' <= s[i] <= 'F'),
        time_travel::without_0x(seq!['0', 'x'] + s) == s,
        time_travel::without_0x(seq!['0', 'X'] + s) == s,
{
    if s.len() == 40 {
        assert forall|i: int| 0 <= i < 40 implies (hex::digit_value(#[trigger] s[i]) is Some <==> ('0' <= s[i] <= '9'
            || 'a' <= s[i] <= 'f' || 'A' <= s[i] <= 'F')) by {}
        if time_travel::is_commit(s) {
            assert forall|i: int| 0 <= i < 40 implies ('0' <= #[trigger] s[i] <= '9' || 'a' <= s[i] <= 'f' || 'A'
                <= s[i] <= 'F') by {
                assert(hex::digit_value(s[i]) is Some);
            }
        }
    }
    reveal_strlit("0x");
    reveal_strlit("0X");
    let a = seq!['0', 'x'] + s;
    let b = seq!['0', 'X'] + s;
    assert(a.subrange(0, 2) =~= "0x"@);
    assert(b.subrange(0, 2) =~= "0X"@);
    assert(a.skip(2) =~= s);
    assert(b.skip(2) =~= s);
}

/// Hexadecimal digits: a further digit counts sixteen times less than the one before it.
pub proof fn law_hexadecimal_numbers(s: Seq<char>, c: char)
    ensures
        time_travel::hex_number(Seq::empty()) == 0,
        '0' <= c <= '9' ==> time_travel::hex_number(s.push(c)) == 16 * time_travel::hex_number(s) + (c as int - 48),
        'a' <= c <= 'f' ==> time_travel::hex_number(s.push(c)) == 16 * time_travel::hex_number(s) + (c as int - 87),
        'A' <= c <= 'F' ==> time_travel::hex_number(s.push(c)) == 16 * time_travel::hex_number(s) + (c as int - 55),
{
    assert(s.push(c).drop_last() =~= s);
}

/// A patch touches a file by its path below the root or by its path from the top, and no other file.
pub proof fn law_touched_by_a_patch(p: PatchView, root: Seq<char>, path: Seq<char>)
    ensures
        p.paths.contains(path) ==> optimistic_patcher::patch_touches(p, root, path),
        p.paths.contains(optimistic_patcher::absolute(root, path)) ==> optimistic_patcher::patch_touches(p, root, path),
        optimistic_patcher::patch_touches(p, root, path) ==> p.paths.contains(path) || p.paths.contains(
            optimistic_patcher::absolute(root, path),
        ),
{
}

/// The bytes that stand for a strategy.
pub proof fn law_strategy_bytes(b: u8)
    ensures
        merge_resume::strategy_of(b) == Some(MergeStrategy::Ours) <==> b == 1,
        merge_resume::strategy_of(b) == Some(MergeStrategy::Theirs) <==> b == 2,
        merge_resume::strategy_of(b) is None <==> b != 1 && b != 2,
{
}

/// The counters of the third phase go up by one and stop at the last number; batches are numbered from one.
pub proof fn law_counters(n: usize, k: nat)
    ensures
        n < usize::MAX ==> merge_edges::bumped(n) == n + 1,
        n == usize::MAX ==> merge_edges::bumped(n) == n,
        k < u32::MAX ==> merge_edges::batch_seq(k) == k + 1,
{
}

/// Where a merge starts from: the bindings that it took down when it began, or, where it took down none,
/// those of the fallback branch.
pub open spec fn starts_from(
    m: Map<Seq<char>, Seq<u8>>,
    merge_id: MergeId,
    target: BranchId,
    fallback: BranchId,
    b: Map<IdentityId, NodeRevisionId>,
) -> bool {
    ||| !b.dom().is_empty() && merge_classify::snapshot_base(m, merge_id, target, b)
    ||| bindings::branch_binds(m, fallback, b) && merge_classify::snapshot_base(m, merge_id, target, Map::empty())
}

/// The first phase of a merge weighs what the two branches bind against where the merge starts from.
pub proof fn law_sides_of_the_first_phase(
    g: GraphView,
    m: Map<Seq<char>, Seq<u8>>,
    merge_id: MergeId,
    ours: BranchId,
    theirs: BranchId,
    target: BranchId,
    fallback: BranchId,
    report: ReportView,
    classified: Seq<ClassifiedView>,
)
    requires
        merge_classify::phase_a_of_merge(g, m, merge_id, ours, theirs, target, fallback, report, classified),
    ensures
        exists|b: Map<IdentityId, NodeRevisionId>, o: Map<IdentityId, NodeRevisionId>, t: Map<IdentityId, NodeRevisionId>|
            #[trigger]
            merge_classify::phase_a(g, b, o, t, report, classified) && starts_from(m, merge_id, target, fallback, b)
                && bindings::branch_binds(m, ours, o) && bindings::branch_binds(m, theirs, t),
{
    let base = choose|base: Map<IdentityId, NodeRevisionId>| #[trigger]
        merge_classify::snapshot_base(m, merge_id, target, base) && (if base.dom().is_empty() {
            merge_classify::phase_a_of_branches(g, m, ours, theirs, fallback, report, classified)
        } else {
            merge_classify::phase_a_over_base(g, m, ours, theirs, base, report, classified)
        });
    if base.dom().is_empty() {
        assert(base =~= Map::empty());
        let (b, o, t) = choose|
            b: Map<IdentityId, NodeRevisionId>,
            o: Map<IdentityId, NodeRevisionId>,
            t: Map<IdentityId, NodeRevisionId>,
        |
            bindings::branch_binds(m, fallback, b) && bindings::branch_binds(m, ours, o) && bindings::branch_binds(
                m,
                theirs,
                t,
            ) && #[trigger] merge_classify::phase_a(g, b, o, t, report, classified);
        assert(starts_from(m, merge_id, target, fallback, b));
    } else {
        let (o, t) = choose|o: Map<IdentityId, NodeRevisionId>, t: Map<IdentityId, NodeRevisionId>|
            bindings::branch_binds(m, ours, o) && bindings::branch_binds(m, theirs, t) && #[trigger] merge_classify::phase_a(
                g,
                base,
                o,
                t,
                report,
                classified,
            );
        assert(starts_from(m, merge_id, target, fallback, base));
    }
}

/// Of the rows that bind an identity the last counts; an identity that no row binds is not bound.
pub proof fn law_bindings_of_rows(rows: Seq<(String, Vec<u8>)>, prefix: Seq<char>, k: int, i: IdentityId, r: NodeRevisionId)
    ensures
        0 <= k < rows.len() && bindings::row_binding(rows[k], prefix) == Some((i, r)) && (forall|j: int|
            k < j < rows.len() ==> !(bindings::row_binding(#[trigger] rows[j], prefix) is Some
                && (bindings::row_binding(rows[j], prefix)->0).0 == i)) ==> bindings::bindings_in(
            rows,
            prefix,
        ).contains_key(i) && bindings::bindings_in(rows, prefix)[i] == r,
        (forall|j: int|
            0 <= j < rows.len() ==> !(bindings::row_binding(#[trigger] rows[j], prefix) is Some
                && (bindings::row_binding(rows[j], prefix)->0).0 == i)) ==> !bindings::bindings_in(
            rows,
            prefix,
        ).contains_key(i),
    decreases rows.len(),
{
    if rows.len() > 0 {
        let front = rows.drop_last();
        law_bindings_of_rows(front, prefix, k, i, r);
        assert(forall|j: int| 0 <= j < front.len() ==> front[j] == #[trigger] rows[j]);
        assert(rows[rows.len() - 1] == rows.last());
    }
}

/// Snapshots that are put back leave those that are there as they are; each one that was not there is
/// counted once, and of several for one key the first counts.
pub proof fn law_snapshots_put_back(m: Map<Seq<char>, Seq<u8>>, front: Seq<RisRow>, row: RisRow, k: Seq<char>)
    ensures
        m.contains_key(k) ==> persistence::rows_hydrated(m, front).0.contains_key(k) && persistence::rows_hydrated(
            m,
            front,
        ).0[k] == m[k],
        ({
            let a = persistence::rows_hydrated(m, front);
            let b = persistence::rows_hydrated(m, front.push(row));
            let key = revision_cow::snapshot_epoch_key(row.0, row.1);
            &&& a.0.contains_key(key) ==> b == a
            &&& !a.0.contains_key(key) ==> b.1 == a.1 + 1 && b.0.contains_key(key) && b.0[key] == row.2@
            &&& k != key ==> (b.0.contains_key(k) <==> a.0.contains_key(k)) && (a.0.contains_key(k) ==> b.0[k] == a.0[k])
        }),
    decreases front.len(),
{
    assert(front.push(row).drop_last() =~= front);
    if front.len() > 0 {
        law_snapshots_put_back(m, front.drop_last(), front.last(), k);
        assert(front.drop_last().push(front.last()) =~= front);
    }
}

/// A patch that is closed is open no longer, and the others stay open; its session's leases on its paths are
/// given back, and no other lease is; it is counted once.
pub proof fn law_patch_is_closed(
    s: PatchState,
    root: Seq<char>,
    branch: BranchId,
    id: u64,
    reverted_at_ms: Option<u64>,
    now_ms: u64,
    other: u64,
    q: Seq<char>,
)
    ensures
        ({
            let r = patch_commands::patch_closed(s, root, branch, id, reverted_at_ms, now_ms);
            let p = s.open[id];
            &&& !r.open.contains_key(id)
            &&& other != id ==> (r.open.contains_key(other) <==> s.open.contains_key(other)) && (s.open.contains_key(
                other,
            ) ==> r.open[other] == s.open[other])
            &&& p.paths.contains(q) && path_lease::leased_to(s.leases, q) == Some(p.session)
                ==> path_lease::leased_to(r.leases, q) is None
            &&& !p.paths.contains(q) || path_lease::leased_to(s.leases, q) != Some(p.session)
                ==> path_lease::leased_to(r.leases, q) == path_lease::leased_to(s.leases, q)
            &&& r.closed == s.closed + 1
        }),
{
}

} // verus!
