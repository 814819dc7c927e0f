//! Confirming and reverting speculative patches.

use crate::graph;
use crate::graph::{GraphView, InMemoryGraph, RevisionStatus, RevisionView};
use crate::ids::{BranchId, NodeRevisionId};
use crate::optimistic_patcher;
use crate::optimistic_patcher::{OptimisticPatcher, PatchView};
use crate::patches;
use crate::patches::{revisions_in_file, settle_patch};
use crate::path_lease;
use crate::path_lease::SessionId;
use crate::security::{AuthError, AuthProvider};
use crate::seqs;
use crate::sorting;
use crate::text;
use crate::wal::{MutationLog, RecordView};
use vstd::prelude::*;

verus! {

/// What a confirmed patch comes to.
#[derive(Debug)]
pub struct ConfirmPatchResponse {
    pub patch_id: u64,
    pub paths_promoted: Vec<String>,
    pub revisions_activated: usize,
}

/// What a reverted patch comes to.
#[derive(Debug)]
pub struct RevertPatchResponse {
    pub patch_id: u64,
    pub paths_reverted: Vec<String>,
}

/// The graph after the speculative revisions of files were settled.
pub open spec fn files_settled(
    g: GraphView,
    root: Seq<char>,
    paths: Seq<Seq<char>>,
    branch: BranchId,
    reverted_at_ms: Option<u64>,
) -> GraphView {
    patches::all_settled(g, patches::speculative_in(g, root, paths, branch), reverted_at_ms)
}

/// Closes a patch of a session and settles its revisions: confirmed, or reverted at a time. A patch
/// that is not open, or of another session, is refused and nothing changes; where the log is full
/// the patch is closed all the same.
pub fn close_patch(
    patcher: &mut OptimisticPatcher,
    graph: &mut InMemoryGraph,
    wal: &mut MutationLog,
    repo_root: &str,
    branch: BranchId,
    session: SessionId,
    patch_id: u64,
    reverted_at_ms: Option<u64>,
    now_ms: u64,
) -> (r: Result<(Vec<String>, usize), AuthError>)
    ensures
        old(patcher).coherent() ==> final(patcher).coherent(),
        ({
            let open = old(patcher).open();
            let mine = open.contains_key(patch_id) && open[patch_id].session == session;
            let paths = open[patch_id].paths;
            let rids = patches::speculative_in(old(graph)@, repo_root@, paths, branch);
            &&& if mine {
                (*old(patcher)).patch_closed(*final(patcher), patch_id, session)
            } else {
                final(patcher).same_as(old(patcher))
            }
            &&& r is Ok <==> mine && (rids.len() == 0 || old(wal)@.len() < u64::MAX)
            &&& r is Err ==> r->Err_0 == AuthError::InvalidInput && final(graph)@ == old(graph)@
                && final(wal)@ == old(wal)@
            &&& r matches Ok(done) ==> {
                &&& text::texts(done.0@) == paths
                &&& done.1 == rids.len()
                &&& final(graph)@ == files_settled(
                    old(graph)@,
                    repo_root@,
                    paths,
                    branch,
                    reverted_at_ms,
                )
                &&& final(wal)@ == patches::settling_logged(
                    old(wal)@,
                    patch_id,
                    rids,
                    reverted_at_ms,
                    now_ms,
                )
            }
        }),
{
    let paths = match patcher.promote(patch_id, session) {
        Ok(p) => p,
        Err(_) => {
            return Err(AuthError::InvalidInput);
        },
    };
    match settle_patch(graph, wal, repo_root, &paths, branch, patch_id, reverted_at_ms, now_ms) {
        Ok(n) => Ok((paths, n)),
        Err(_) => Err(AuthError::InvalidInput),
    }
}

/// Confirms a patch of a session.
pub fn confirm_patch(
    auth: &AuthProvider,
    patcher: &mut OptimisticPatcher,
    graph: &mut InMemoryGraph,
    wal: &mut MutationLog,
    repo_root: &str,
    branch: BranchId,
    session_id: u64,
    patch_id: u64,
    now_ms: u64,
) -> (r: Result<ConfirmPatchResponse, AuthError>)
    ensures
        old(patcher).coherent() ==> final(patcher).coherent(),
        ({
            let open = old(patcher).open();
            let known = auth@.contains_key(session_id);
            let mine = known && open.contains_key(patch_id) && open[patch_id].session == SessionId(
                session_id,
            );
            let paths = open[patch_id].paths;
            let rids = patches::speculative_in(old(graph)@, repo_root@, paths, branch);
            &&& if mine {
                (*old(patcher)).patch_closed(*final(patcher), patch_id, SessionId(session_id))
            } else {
                final(patcher).same_as(old(patcher))
            }
            &&& r is Ok <==> mine && (rids.len() == 0 || old(wal)@.len() < u64::MAX)
            &&& r is Err ==> final(graph)@ == old(graph)@ && final(wal)@ == old(wal)@ && r->Err_0
                == (if known {
                AuthError::InvalidInput
            } else {
                AuthError::Unauthorized
            })
            &&& r matches Ok(done) ==> {
                &&& done.patch_id == patch_id
                &&& text::texts(done.paths_promoted@) == paths
                &&& done.revisions_activated == rids.len()
                &&& final(graph)@ == files_settled(old(graph)@, repo_root@, paths, branch, None)
                &&& final(wal)@ == patches::settling_logged(
                    old(wal)@,
                    patch_id,
                    rids,
                    None,
                    now_ms,
                )
            }
        }),
{
    if let Err(e) = auth.require_session(session_id) {
        return Err(e);
    }
    match close_patch(
        patcher,
        graph,
        wal,
        repo_root,
        branch,
        SessionId(session_id),
        patch_id,
        None,
        now_ms,
    ) {
        Ok((paths, n)) => Ok(
            ConfirmPatchResponse { patch_id, paths_promoted: paths, revisions_activated: n },
        ),
        Err(e) => Err(e),
    }
}

/// Reverts a patch of a session.
pub fn revert_patch(
    auth: &AuthProvider,
    patcher: &mut OptimisticPatcher,
    graph: &mut InMemoryGraph,
    wal: &mut MutationLog,
    repo_root: &str,
    branch: BranchId,
    session_id: u64,
    patch_id: u64,
    now_ms: u64,
) -> (r: Result<RevertPatchResponse, AuthError>)
    ensures
        old(patcher).coherent() ==> final(patcher).coherent(),
        ({
            let open = old(patcher).open();
            let known = auth@.contains_key(session_id);
            let mine = known && open.contains_key(patch_id) && open[patch_id].session == SessionId(
                session_id,
            );
            let paths = open[patch_id].paths;
            let rids = patches::speculative_in(old(graph)@, repo_root@, paths, branch);
            &&& if mine {
                (*old(patcher)).patch_closed(*final(patcher), patch_id, SessionId(session_id))
            } else {
                final(patcher).same_as(old(patcher))
            }
            &&& r is Ok <==> mine && (rids.len() == 0 || old(wal)@.len() < u64::MAX)
            &&& r is Err ==> final(graph)@ == old(graph)@ && final(wal)@ == old(wal)@ && r->Err_0
                == (if known {
                AuthError::InvalidInput
            } else {
                AuthError::Unauthorized
            })
            &&& r matches Ok(done) ==> {
                &&& done.patch_id == patch_id
                &&& text::texts(done.paths_reverted@) == paths
                &&& final(graph)@ == files_settled(
                    old(graph)@,
                    repo_root@,
                    paths,
                    branch,
                    Some(now_ms),
                )
                &&& final(wal)@ == patches::settling_logged(
                    old(wal)@,
                    patch_id,
                    rids,
                    Some(now_ms),
                    now_ms,
                )
            }
        }),
{
    if let Err(e) = auth.require_session(session_id) {
        return Err(e);
    }
    match close_patch(
        patcher,
        graph,
        wal,
        repo_root,
        branch,
        SessionId(session_id),
        patch_id,
        Some(now_ms),
        now_ms,
    ) {
        Ok((paths, _)) => Ok(RevertPatchResponse { patch_id, paths_reverted: paths }),
        Err(e) => Err(e),
    }
}

/// The newest open patch that touches a path.
pub open spec fn is_newest(open: Map<u64, PatchView>, root: Seq<char>, path: Seq<char>, id: u64) -> bool {
    &&& open.contains_key(id)
    &&& optimistic_patcher::patch_touches(open[id], root, path)
    &&& forall|o: u64| #[trigger]
        open.contains_key(o) && optimistic_patcher::patch_touches(open[o], root, path) ==> o <= id
}

/// The newest open patch that touches a path, if one does.
pub open spec fn newest(open: Map<u64, PatchView>, root: Seq<char>, path: Seq<char>) -> Option<u64> {
    if exists|id: u64| is_newest(open, root, path, id) {
        Some(choose|id: u64| is_newest(open, root, path, id))
    } else {
        None
    }
}

/// Leases without those of a session on some paths.
pub open spec fn leases_given_back(
    m: Map<Seq<char>, SessionId>,
    paths: Seq<Seq<char>>,
    session: SessionId,
) -> Map<Seq<char>, SessionId> {
    m.remove_keys(
        Set::new(
            |q: Seq<char>| paths.contains(q) && path_lease::leased_to(m, q) == Some(session),
        ),
    )
}

/// Closing a patch gives back its leases.
proof fn lemma_closing_gives_back(
    before: OptimisticPatcher,
    after: OptimisticPatcher,
    patch_id: u64,
    session: SessionId,
)
    requires
        before.patch_closed(after, patch_id, session),
    ensures
        after.leased() == leases_given_back(
            before.leased(),
            before.open()[patch_id].paths,
            session,
        ),
{
    let given = leases_given_back(before.leased(), before.open()[patch_id].paths, session);
    assert forall|q: Seq<char>| #[trigger]
        path_lease::leased_to(after.leased(), q) == path_lease::leased_to(given, q) by {}
    path_lease::lemma_same_leases(after.leased(), given);
}

/// Open patches, leases, the graph and the log, while patches are closed.
pub struct PatchState {
    pub open: Map<u64, PatchView>,
    pub leases: Map<Seq<char>, SessionId>,
    pub graph: GraphView,
    pub log: Seq<RecordView>,
    /// How many patches were closed.
    pub closed: nat,
}

/// A patcher, a graph and a log before any patch is closed.
pub open spec fn state_of(patcher: OptimisticPatcher, graph: GraphView, log: Seq<RecordView>) -> PatchState {
    PatchState { open: patcher.open(), leases: patcher.leased(), graph, log, closed: 0 }
}

/// After a patch was closed at a time.
pub open spec fn patch_closed(
    s: PatchState,
    root: Seq<char>,
    branch: BranchId,
    id: u64,
    reverted_at_ms: Option<u64>,
    now_ms: u64,
) -> PatchState {
    PatchState {
        open: s.open.remove(id),
        leases: leases_given_back(s.leases, s.open[id].paths, s.open[id].session),
        log: patches::settling_logged(
            s.log,
            id,
            patches::speculative_in(s.graph, root, s.open[id].paths, branch),
            reverted_at_ms,
            now_ms,
        ),
        graph: files_settled(s.graph, root, s.open[id].paths, branch, reverted_at_ms),
        closed: s.closed + 1,
    }
}

/// After the newest patch of each path was confirmed, one path after another.
pub open spec fn paths_confirmed(
    s: PatchState,
    root: Seq<char>,
    branch: BranchId,
    paths: Seq<Seq<char>>,
    now_ms: u64,
) -> PatchState
    decreases paths.len(),
{
    if paths.len() == 0 {
        s
    } else {
        let front = paths_confirmed(s, root, branch, paths.drop_last(), now_ms);
        match newest(front.open, root, paths.last()) {
            Some(id) => patch_closed(front, root, branch, id, None, now_ms),
            None => front,
        }
    }
}

/// Confirms the newest open patch of each path; how many there were.
pub fn confirm_pending_patches_for_paths(
    patcher: &mut OptimisticPatcher,
    graph: &mut InMemoryGraph,
    wal: &mut MutationLog,
    repo_root: &str,
    branch: BranchId,
    paths: &Vec<String>,
    now_ms: u64,
) -> (n: usize)
    requires
        old(wal)@.len() + paths.len() <= u64::MAX,
    ensures
        old(patcher).coherent() ==> final(patcher).coherent(),
        ({
            let s = paths_confirmed(
                state_of(*old(patcher), old(graph)@, old(wal)@),
                repo_root@,
                branch,
                text::texts(paths@),
                now_ms,
            );
            &&& final(patcher).open() == s.open
            &&& final(patcher).leased() == s.leases
            &&& final(wal)@ == s.log
            &&& final(graph)@ == s.graph
            &&& n == s.closed
        }),
{
    let ghost start = state_of(*patcher, graph@, wal@);
    let ghost names = text::texts(paths@);
    let ghost had = wal@.len();
    let mut n: usize = 0;
    let mut i: usize = 0;
    assert(names.take(0) =~= Seq::<Seq<char>>::empty());
    while i < paths.len()
        invariant
            i <= paths.len(),
            n <= i,
            names == text::texts(paths@),
            had + paths.len() <= u64::MAX,
            wal@.len() <= had + i,
            old(patcher).coherent() ==> patcher.coherent(),
            ({
                let s = paths_confirmed(start, repo_root@, branch, names.take(i as int), now_ms);
                patcher.open() == s.open && patcher.leased() == s.leases && graph@ == s.graph
                    && wal@ == s.log && n == s.closed
            }),
        decreases paths.len() - i,
    {
        let ghost s = paths_confirmed(start, repo_root@, branch, names.take(i as int), now_ms);
        proof {
            assert(names.take(i + 1).drop_last() =~= names.take(i as int));
            assert(names.take(i + 1).last() == names[i as int]);
        }
        match patcher.pending_patch_for_path(paths[i].as_str(), repo_root) {
            Some(id) => {
                proof {
                    assert(is_newest(s.open, repo_root@, names[i as int], id));
                    let other = choose|o: u64| is_newest(s.open, repo_root@, names[i as int], o);
                    assert(is_newest(s.open, repo_root@, names[i as int], other));
                    assert(other <= id && id <= other);
                }
                if let Some(session) = patcher.patch_session(id) {
                    let ghost before = *patcher;
                    if let Ok(_) = close_patch(
                        patcher,
                        graph,
                        wal,
                        repo_root,
                        branch,
                        session,
                        id,
                        None,
                        now_ms,
                    ) {
                        n = n + 1;
                    }
                    proof {
                        lemma_closing_gives_back(before, *patcher, id, session);
                    }
                }
            },
            None => {
                assert forall|id: u64| !is_newest(s.open, repo_root@, names[i as int], id) by {}
            },
        }
        i = i + 1;
    }
    assert(names.take(names.len() as int) =~= names);
    n
}

/// After patches were reverted, one after another.
pub open spec fn patches_reverted(
    s: PatchState,
    root: Seq<char>,
    branch: BranchId,
    ids: Seq<u64>,
    now_ms: u64,
) -> PatchState
    decreases ids.len(),
{
    if ids.len() == 0 {
        s
    } else {
        patch_closed(
            patches_reverted(s, root, branch, ids.drop_last(), now_ms),
            root,
            branch,
            ids.last(),
            Some(now_ms),
            now_ms,
        )
    }
}

/// Reverting leaves open what was not reverted.
proof fn lemma_reverted_open(
    s: PatchState,
    root: Seq<char>,
    branch: BranchId,
    ids: Seq<u64>,
    now_ms: u64,
)
    ensures
        patches_reverted(s, root, branch, ids, now_ms).open =~= s.open.remove_keys(ids.to_set()),
    decreases ids.len(),
{
    if ids.len() > 0 {
        let front = ids.drop_last();
        lemma_reverted_open(s, root, branch, front, now_ms);
        assert(ids =~= front.push(ids.last()));
        assert(ids.to_set() =~= front.to_set().insert(ids.last())) by {
            assert forall|id: u64| ids.to_set().contains(id) implies front.to_set().insert(
                ids.last(),
            ).contains(id) by {
                let k = choose|k: int| 0 <= k < ids.len() && ids[k] == id;
                if k < front.len() {
                    assert(front[k] == id);
                }
            }
            assert forall|id: u64| front.to_set().insert(ids.last()).contains(
                id,
            ) implies ids.to_set().contains(id) by {
                if id == ids.last() {
                    assert(ids[ids.len() - 1] == id);
                } else {
                    let k = choose|k: int| 0 <= k < front.len() && front[k] == id;
                    assert(ids[k] == id);
                }
            }
        }
        assert(s.open.remove_keys(front.to_set()).remove(ids.last()) =~= s.open.remove_keys(
            ids.to_set(),
        ));
    } else {
        assert(s.open.remove_keys(ids.to_set()) =~= s.open);
    }
}

/// Those of some patches whose files could be put back, in order.
pub open spec fn put_back(ids: Seq<u64>, not_put_back: Seq<u64>) -> Seq<u64> {
    ids.filter(|id: u64| !not_put_back.contains(id))
}

/// Whether a list holds the id of a patch.
fn names_patch(ids: &Vec<u64>, id: u64) -> (r: bool)
    ensures
        r == ids@.contains(id),
{
    let mut i: usize = 0;
    while i < ids.len()
        invariant
            i <= ids.len(),
            forall|k: int| 0 <= k < i ==> ids@[k] != id,
        decreases ids.len() - i,
    {
        if ids[i] == id {
            return true;
        }
        i = i + 1;
    }
    false
}

/// Picks the patches whose files could be put back.
fn pick_put_back(ids: &Vec<u64>, not_put_back: &Vec<u64>) -> (r: Vec<u64>)
    requires
        sorting::strictly_ascending(ids@),
    ensures
        r@ == put_back(ids@, not_put_back@),
        r@.len() <= ids@.len(),
        sorting::strictly_ascending(r@),
        forall|id: u64| #[trigger]
            r@.contains(id) <==> ids@.contains(id) && !not_put_back@.contains(id),
{
    let ghost keep = |id: u64| !not_put_back@.contains(id);
    let mut out: Vec<u64> = Vec::new();
    let mut i: usize = 0;
    proof {
        seqs::lemma_filter_ends(ids@, keep);
    }
    while i < ids.len()
        invariant
            i <= ids.len(),
            out@.len() <= i,
            keep == (|id: u64| !not_put_back@.contains(id)),
            sorting::strictly_ascending(ids@),
            sorting::strictly_ascending(out@),
            out@ == ids@.take(i as int).filter(keep),
            forall|k: int| 0 <= k < out@.len() ==> i > 0 && #[trigger] out@[k] <= ids@[i - 1],
            forall|k: int| 0 <= k < out@.len() ==> ids@.contains(#[trigger] out@[k]),
            forall|k: int| 0 <= k < out@.len() ==> !not_put_back@.contains(#[trigger] out@[k]),
            forall|k: int|
                0 <= k < i && !not_put_back@.contains(#[trigger] ids@[k]) ==> out@.contains(ids@[k]),
        decreases ids.len() - i,
    {
        let id = ids[i];
        let ghost had = out@;
        proof {
            seqs::lemma_filter_step(ids@, keep, i as int);
            assert(ids@.contains(ids@[i as int]));
            if i > 0 {
                assert(ids@[i - 1] < ids@[i as int]);
            }
        }
        if !names_patch(not_put_back, id) {
            out.push(id);
            proof {
                assert(out@[had.len() as int] == id);
                assert forall|k: int|
                    0 <= k < i && !not_put_back@.contains(#[trigger] ids@[k]) implies out@.contains(
                    ids@[k],
                ) by {
                    let j = choose|j: int| 0 <= j < had.len() && had[j] == ids@[k];
                    assert(out@[j] == ids@[k]);
                }
            }
        }
        i = i + 1;
    }
    proof {
        seqs::lemma_filter_ends(ids@, keep);
        assert forall|id: u64| #[trigger]
            out@.contains(id) <==> ids@.contains(id) && !not_put_back@.contains(id) by {
            if out@.contains(id) {
                let k = choose|k: int| 0 <= k < out@.len() && out@[k] == id;
                assert(ids@.contains(out@[k]));
            }
            if ids@.contains(id) && !not_put_back@.contains(id) {
                let k = choose|k: int| 0 <= k < ids@.len() && ids@[k] == id;
                assert(out@.contains(ids@[k]));
            }
        }
    }
    out
}

/// Reverts the open patches that are older than a time to live; how many there were. Those whose files
/// could not be put back stay open.
pub fn sweep_speculative_orphans(
    patcher: &mut OptimisticPatcher,
    graph: &mut InMemoryGraph,
    wal: &mut MutationLog,
    repo_root: &str,
    branch: BranchId,
    ttl_secs: u64,
    now_ms: u64,
    not_put_back: &Vec<u64>,
) -> (n: usize)
    requires
        ttl_secs * 1000 <= u64::MAX,
        old(wal)@.len() + old(patcher).rows().len() <= u64::MAX,
    ensures
        old(patcher).coherent() ==> final(patcher).coherent(),
        exists|ids: Seq<u64>|
            {
                let s = #[trigger] patches_reverted(
                    state_of(*old(patcher), old(graph)@, old(wal)@),
                    repo_root@,
                    branch,
                    put_back(ids, not_put_back@),
                    now_ms,
                );
                &&& sorting::strictly_ascending(ids)
                &&& optimistic_patcher::expired_at(old(patcher).open(), ids, ttl_secs, now_ms)
                &&& n == ids.len()
                &&& final(patcher).open() == s.open
                &&& final(patcher).leased() == s.leases
                &&& final(wal)@ == s.log
                &&& final(graph)@ == s.graph
            },
        forall|id: u64| #[trigger]
            final(patcher).open().contains_key(id) <==> old(patcher).open().contains_key(id) && (!(
            old(patcher).open()[id].created_ms < now_ms - ttl_secs * 1000)
                || not_put_back@.contains(id)),
{
    let ghost start = state_of(*patcher, graph@, wal@);
    let count = patcher.open_patch_count();
    let expired = patcher.expired_patch_ids_at(ttl_secs, now_ms);
    let ids = pick_put_back(&expired, not_put_back);
    let ghost had = wal@.len();
    proof {
        lemma_ids_are_open(start.open, expired@);
        assert(ids@.take(0) =~= Seq::<u64>::empty());
    }
    let mut i: usize = 0;
    while i < ids.len()
        invariant
            i <= ids.len(),
            ids.len() <= expired.len() <= count,
            had + count <= u64::MAX,
            wal@.len() <= had + i,
            sorting::strictly_ascending(ids@),
            forall|id: u64| #[trigger] ids@.contains(id) ==> expired@.contains(id),
            optimistic_patcher::expired_at(start.open, expired@, ttl_secs, now_ms),
            old(patcher).coherent() ==> patcher.coherent(),
            ({
                let s = patches_reverted(start, repo_root@, branch, ids@.take(i as int), now_ms);
                patcher.open() == s.open && patcher.leased() == s.leases && graph@ == s.graph
                    && wal@ == s.log
            }),
        decreases ids.len() - i,
    {
        let id = ids[i];
        proof {
            let done = ids@.take(i as int);
            assert(ids@.take(i + 1).drop_last() =~= done);
            assert(ids@.take(i + 1).last() == id);
            lemma_reverted_open(start, repo_root@, branch, done, now_ms);
            assert(ids@.contains(ids@[i as int]));
            assert(expired@.contains(id));
            assert(start.open.contains_key(id));
            assert(!done.contains(id)) by {
                if done.contains(id) {
                    let k = choose|k: int| 0 <= k < done.len() && done[k] == id;
                    assert(ids@[k] < ids@[i as int]);
                }
            }
            assert(patcher.open().contains_key(id));
        }
        if let Some(session) = patcher.patch_session(id) {
            let ghost before = *patcher;
            let _ = close_patch(
                patcher,
                graph,
                wal,
                repo_root,
                branch,
                session,
                id,
                Some(now_ms),
                now_ms,
            );
            proof {
                lemma_closing_gives_back(before, *patcher, id, session);
            }
        }
        i = i + 1;
    }
    proof {
        assert(ids@.take(ids@.len() as int) =~= ids@);
        lemma_reverted_open(start, repo_root@, branch, ids@, now_ms);
        assert forall|id: u64| #[trigger]
            patcher.open().contains_key(id) <==> start.open.contains_key(id) && (!(
            start.open[id].created_ms < now_ms - ttl_secs * 1000) || not_put_back@.contains(
                id,
            )) by {
            assert(expired@.contains(id) <==> start.open.contains_key(id)
                && start.open[id].created_ms < now_ms - ttl_secs * 1000);
            assert(ids@.to_set().contains(id) <==> ids@.contains(id));
        }
        assert(ids@ == put_back(expired@, not_put_back@));
    }
    expired.len()
}

/// Ids of open patches, each once, are no more than there are.
proof fn lemma_ids_are_open(open: Map<u64, PatchView>, ids: Seq<u64>)
    requires
        open.dom().finite(),
        sorting::strictly_ascending(ids),
        forall|id: u64| #[trigger] ids.contains(id) ==> open.contains_key(id),
    ensures
        ids.len() <= open.dom().len(),
{
    assert(ids.no_duplicates()) by {
        assert forall|i: int, j: int| 0 <= i < ids.len() && 0 <= j < ids.len() && i
            != j implies ids[i] != ids[j] by {
            if i < j {
                assert(ids[i] < ids[j]);
            } else {
                assert(ids[j] < ids[i]);
            }
        }
    }
    ids.unique_seq_to_set();
    assert(ids.to_set().subset_of(open.dom())) by {
        assert forall|id: u64| ids.to_set().contains(id) implies open.dom().contains(id) by {
            assert(ids.contains(id));
        }
    }
    vstd::set_lib::lemma_len_subset(ids.to_set(), open.dom());
}

/// Putting a revision in the place of one of its id.
proof fn lemma_put_in_place(revs: Seq<RevisionView>, r: RevisionView, i: int)
    requires
        graph::ids_unique(revs),
        0 <= i < revs.len(),
        revs[i].revision_id == r.revision_id,
    ensures
        graph::put_into(revs, r) =~= revs.update(i, r),
    decreases revs.len(),
{
    if revs[0].revision_id == r.revision_id {
        if i > 0 {
            assert(revs[0].revision_id != revs[i].revision_id);
        }
    } else {
        let rest = revs.drop_first();
        assert forall|a: int, b: int| 0 <= a < b < rest.len() implies (
        #[trigger] rest[a]).revision_id != (#[trigger] rest[b]).revision_id by {
            assert(rest[a] == revs[a + 1] && rest[b] == revs[b + 1]);
        }
        assert(rest[i - 1] == revs[i]);
        lemma_put_in_place(rest, r, i - 1);
    }
}

/// A revision as it stands after others were settled.
pub open spec fn after_settling(
    r: RevisionView,
    rids: Seq<NodeRevisionId>,
    reverted_at_ms: Option<u64>,
) -> RevisionView {
    if rids.contains(r.revision_id) {
        patches::revision_settled(r, reverted_at_ms)
    } else {
        r
    }
}

/// Settling changes the revisions that are settled, in their places, and nothing else.
proof fn lemma_all_settled(g: GraphView, rids: Seq<NodeRevisionId>, reverted_at_ms: Option<u64>)
    requires
        graph::ids_unique(g.revisions),
    ensures
        ({
            let s = patches::all_settled(g, rids, reverted_at_ms);
            &&& s.edges == g.edges
            &&& s.kinds == g.kinds
            &&& s.hub_ids == g.hub_ids
            &&& s.revisions.len() == g.revisions.len()
            &&& forall|i: int|
                0 <= i < g.revisions.len() ==> #[trigger] s.revisions[i] == after_settling(
                    g.revisions[i],
                    rids,
                    reverted_at_ms,
                )
        }),
    decreases rids.len(),
{
    if rids.len() > 0 {
        let before = rids.drop_last();
        let rid = rids.last();
        lemma_all_settled(g, before, reverted_at_ms);
        let f = patches::all_settled(g, before, reverted_at_ms);
        let s = patches::all_settled(g, rids, reverted_at_ms);
        assert forall|x: NodeRevisionId| #[trigger] rids.contains(x) <==> before.contains(x) || x
            == rid by {
            if rids.contains(x) {
                let k = choose|k: int| 0 <= k < rids.len() && rids[k] == x;
                if k < before.len() {
                    assert(before[k] == x);
                }
            }
            if before.contains(x) {
                let k = choose|k: int| 0 <= k < before.len() && before[k] == x;
                assert(rids[k] == x);
            }
            assert(rids[rids.len() - 1] == rid);
        }
        assert forall|a: int, b: int| 0 <= a < b < f.revisions.len() implies (
        #[trigger] f.revisions[a]).revision_id != (#[trigger] f.revisions[b]).revision_id by {
            assert(g.revisions[a].revision_id != g.revisions[b].revision_id);
        }
        let p = |r: RevisionView| r.revision_id == rid;
        match f.rev(rid) {
            Some(r) => {
                seqs::lemma_first_is(f.revisions, p);
                let i = choose|i: int| 0 <= i < f.revisions.len() && f.revisions[i] == r;
                lemma_put_in_place(f.revisions, patches::revision_settled(r, reverted_at_ms), i);
                assert forall|k: int| 0 <= k < g.revisions.len() implies #[trigger] s.revisions[k]
                    == after_settling(g.revisions[k], rids, reverted_at_ms) by {
                    assert(f.revisions[k] == after_settling(g.revisions[k], before, reverted_at_ms));
                    assert(rids.contains(g.revisions[k].revision_id) <==> before.contains(
                        g.revisions[k].revision_id,
                    ) || g.revisions[k].revision_id == rid);
                    if k != i && g.revisions[k].revision_id == rid {
                        if k < i {
                            assert(f.revisions[k].revision_id != f.revisions[i].revision_id);
                        } else {
                            assert(f.revisions[i].revision_id != f.revisions[k].revision_id);
                        }
                    }
                }
            },
            None => {
                seqs::lemma_first_is(f.revisions, p);
                assert forall|k: int| 0 <= k < g.revisions.len() implies #[trigger] s.revisions[k]
                    == after_settling(g.revisions[k], rids, reverted_at_ms) by {
                    assert(!p(f.revisions[k]));
                    assert(rids.contains(g.revisions[k].revision_id) <==> before.contains(
                        g.revisions[k].revision_id,
                    ) || g.revisions[k].revision_id == rid);
                }
            },
        }
    }
}

/// A revision stands in a file on a branch in a status.
spec fn stands_in(r: RevisionView, branch: BranchId, path: Seq<char>, status: RevisionStatus) -> bool {
    r.branch_id == branch && r.file_path == path && r.status == status
}

/// The revisions of a file are those that stand in it.
proof fn lemma_in_file(
    revs: Seq<RevisionView>,
    branch: BranchId,
    path: Seq<char>,
    status: RevisionStatus,
)
    ensures
        forall|i: int|
            0 <= i < revs.len() && stands_in(#[trigger] revs[i], branch, path, status) ==> patches::in_file(
                revs,
                branch,
                path,
                status,
            ).contains(revs[i].revision_id),
        (forall|i: int|
            0 <= i < revs.len() ==> !stands_in(#[trigger] revs[i], branch, path, status))
            ==> patches::in_file(revs, branch, path, status) =~= Seq::<NodeRevisionId>::empty(),
    decreases revs.len(),
{
    if revs.len() > 0 {
        let front = revs.drop_last();
        lemma_in_file(front, branch, path, status);
        let all = patches::in_file(revs, branch, path, status);
        let some = patches::in_file(front, branch, path, status);
        assert forall|i: int|
            0 <= i < revs.len() && stands_in(
                #[trigger] revs[i],
                branch,
                path,
                status,
            ) implies all.contains(revs[i].revision_id) by {
            if i < front.len() {
                assert(front[i] == revs[i]);
                let k = choose|k: int| 0 <= k < some.len() && some[k] == revs[i].revision_id;
                assert(all[k] == revs[i].revision_id);
            } else {
                assert(all[some.len() as int] == revs[i].revision_id);
            }
        }
        if forall|i: int| 0 <= i < revs.len() ==> !stands_in(#[trigger] revs[i], branch, path, status) {
            assert forall|i: int| 0 <= i < front.len() implies !stands_in(
                #[trigger] front[i],
                branch,
                path,
                status,
            ) by {
                assert(front[i] == revs[i]);
            }
            assert(!stands_in(revs[revs.len() - 1], branch, path, status));
        }
    }
}

/// The speculative revisions of files take in those of each file.
proof fn lemma_speculative_in(
    g: GraphView,
    root: Seq<char>,
    paths: Seq<Seq<char>>,
    branch: BranchId,
    k: int,
    rid: NodeRevisionId,
)
    requires
        0 <= k < paths.len(),
        patches::in_file(
            g.revisions,
            branch,
            patches::below_root(root, paths[k]),
            RevisionStatus::Speculative,
        ).contains(rid),
    ensures
        patches::speculative_in(g, root, paths, branch).contains(rid),
    decreases paths.len(),
{
    let a = patches::speculative_in(g, root, paths.drop_last(), branch);
    let b = patches::in_file(
        g.revisions,
        branch,
        patches::below_root(root, paths.last()),
        RevisionStatus::Speculative,
    );
    let all = a + b;
    if k < paths.len() - 1 {
        lemma_speculative_in(g, root, paths.drop_last(), branch, k, rid);
        let j = choose|j: int| 0 <= j < a.len() && a[j] == rid;
        assert(all[j] == rid);
    } else {
        let j = choose|j: int| 0 <= j < b.len() && b[j] == rid;
        assert(all[a.len() + j] == rid);
    }
}

/// Files without speculative revisions.
proof fn lemma_none_speculative(
    s: GraphView,
    root: Seq<char>,
    paths: Seq<Seq<char>>,
    branch: BranchId,
)
    requires
        forall|k: int, i: int|
            #![trigger paths[k], s.revisions[i]]
            0 <= k < paths.len() && 0 <= i < s.revisions.len() ==> !stands_in(
                s.revisions[i],
                branch,
                patches::below_root(root, paths[k]),
                RevisionStatus::Speculative,
            ),
    ensures
        patches::speculative_in(s, root, paths, branch) =~= Seq::<NodeRevisionId>::empty(),
    decreases paths.len(),
{
    if paths.len() > 0 {
        let front = paths.drop_last();
        assert forall|k: int, i: int|
            #![trigger front[k], s.revisions[i]]
            0 <= k < front.len() && 0 <= i < s.revisions.len() implies !stands_in(
            s.revisions[i],
            branch,
            patches::below_root(root, front[k]),
            RevisionStatus::Speculative,
        ) by {
            assert(front[k] == paths[k]);
        }
        lemma_none_speculative(s, root, front, branch);
        assert(paths.last() == paths[paths.len() - 1]);
        lemma_in_file(
            s.revisions,
            branch,
            patches::below_root(root, paths.last()),
            RevisionStatus::Speculative,
        );
    }
}

/// Once a patch is confirmed or reverted, nothing in its files is speculative any more: what was is
/// active or gone, and every other revision, edge and symbol is as it was.
pub proof fn law_closed_patch_is_settled(
    g: GraphView,
    root: Seq<char>,
    paths: Seq<Seq<char>>,
    branch: BranchId,
    reverted_at_ms: Option<u64>,
)
    requires
        graph::ids_unique(g.revisions),
    ensures
        ({
            let rids = patches::speculative_in(g, root, paths, branch);
            let s = files_settled(g, root, paths, branch, reverted_at_ms);
            &&& patches::speculative_in(s, root, paths, branch) == Seq::<NodeRevisionId>::empty()
            &&& s.edges == g.edges
            &&& s.kinds == g.kinds
            &&& s.hub_ids == g.hub_ids
            &&& s.revisions.len() == g.revisions.len()
            &&& forall|i: int|
                0 <= i < g.revisions.len() ==> #[trigger] s.revisions[i] == after_settling(
                    g.revisions[i],
                    rids,
                    reverted_at_ms,
                )
        }),
{
    let rids = patches::speculative_in(g, root, paths, branch);
    let s = files_settled(g, root, paths, branch, reverted_at_ms);
    lemma_all_settled(g, rids, reverted_at_ms);
    assert forall|k: int, i: int|
        #![trigger paths[k], s.revisions[i]]
        0 <= k < paths.len() && 0 <= i < s.revisions.len() implies !stands_in(
        s.revisions[i],
        branch,
        patches::below_root(root, paths[k]),
        RevisionStatus::Speculative,
    ) by {
        let path = patches::below_root(root, paths[k]);
        assert(s.revisions[i] == after_settling(g.revisions[i], rids, reverted_at_ms));
        if stands_in(s.revisions[i], branch, path, RevisionStatus::Speculative) {
            assert(stands_in(g.revisions[i], branch, path, RevisionStatus::Speculative));
            lemma_in_file(g.revisions, branch, path, RevisionStatus::Speculative);
            lemma_speculative_in(g, root, paths, branch, k, g.revisions[i].revision_id);
            assert(rids.contains(g.revisions[i].revision_id));
        }
    }
    lemma_none_speculative(s, root, paths, branch);
}

/// The graph with revisions put into a status.
pub open spec fn all_marked(
    g: GraphView,
    rids: Seq<NodeRevisionId>,
    status: RevisionStatus,
) -> GraphView
    decreases rids.len(),
{
    if rids.len() == 0 {
        g
    } else {
        all_marked(g, rids.drop_last(), status).with_status(rids.last(), status)
    }
}

/// Makes what is active in a file on a branch speculative, and tells how many revisions that is.
pub fn speculate_file(graph: &mut InMemoryGraph, branch: BranchId, path: &str) -> (n: usize)
    ensures
        ({
            let rids = patches::in_file(
                old(graph)@.revisions,
                branch,
                path@,
                RevisionStatus::Active,
            );
            &&& n == rids.len()
            &&& final(graph)@ == all_marked(old(graph)@, rids, RevisionStatus::Speculative)
        }),
{
    let rids = revisions_in_file(graph, branch, path, RevisionStatus::Active);
    let ghost g0 = graph@;
    let mut i: usize = 0;
    assert(rids@.take(0) =~= Seq::<NodeRevisionId>::empty());
    while i < rids.len()
        invariant
            i <= rids.len(),
            graph@ == all_marked(g0, rids@.take(i as int), RevisionStatus::Speculative),
        decreases rids.len() - i,
    {
        proof {
            assert(rids@.take(i + 1).drop_last() =~= rids@.take(i as int));
            assert(rids@.take(i + 1).last() == rids@[i as int]);
        }
        graph.set_revision_status(rids[i], RevisionStatus::Speculative);
        i = i + 1;
    }
    assert(rids@.take(rids@.len() as int) =~= rids@);
    rids.len()
}

/// A revision as it stands after others were put into a status.
pub open spec fn after_marking(
    r: RevisionView,
    rids: Seq<NodeRevisionId>,
    status: RevisionStatus,
) -> RevisionView {
    if rids.contains(r.revision_id) {
        RevisionView { status, ..r }
    } else {
        r
    }
}

/// Marking changes the revisions that are marked, in their places, and nothing else.
proof fn lemma_all_marked(g: GraphView, rids: Seq<NodeRevisionId>, status: RevisionStatus)
    requires
        graph::ids_unique(g.revisions),
    ensures
        ({
            let s = all_marked(g, rids, status);
            &&& s.edges == g.edges
            &&& s.kinds == g.kinds
            &&& s.hub_ids == g.hub_ids
            &&& s.revisions.len() == g.revisions.len()
            &&& forall|i: int|
                0 <= i < g.revisions.len() ==> #[trigger] s.revisions[i] == after_marking(
                    g.revisions[i],
                    rids,
                    status,
                )
        }),
    decreases rids.len(),
{
    if rids.len() > 0 {
        let before = rids.drop_last();
        let rid = rids.last();
        lemma_all_marked(g, before, status);
        let f = all_marked(g, before, status);
        let s = all_marked(g, rids, status);
        assert forall|x: NodeRevisionId| #[trigger] rids.contains(x) <==> before.contains(x) || x
            == rid by {
            if rids.contains(x) {
                let k = choose|k: int| 0 <= k < rids.len() && rids[k] == x;
                if k < before.len() {
                    assert(before[k] == x);
                }
            }
            if before.contains(x) {
                let k = choose|k: int| 0 <= k < before.len() && before[k] == x;
                assert(rids[k] == x);
            }
            assert(rids[rids.len() - 1] == rid);
        }
        assert forall|a: int, b: int| 0 <= a < b < f.revisions.len() implies (
        #[trigger] f.revisions[a]).revision_id != (#[trigger] f.revisions[b]).revision_id by {
            assert(g.revisions[a].revision_id != g.revisions[b].revision_id);
        }
        let p = |r: RevisionView| r.revision_id == rid;
        seqs::lemma_first_is(f.revisions, p);
        if let Some(r) = f.rev(rid) {
            let i = choose|i: int| 0 <= i < f.revisions.len() && f.revisions[i] == r;
            lemma_put_in_place(f.revisions, RevisionView { status, ..r }, i);
        }
        assert forall|k: int| 0 <= k < g.revisions.len() implies #[trigger] s.revisions[k]
            == after_marking(g.revisions[k], rids, status) by {
            assert(f.revisions[k] == after_marking(g.revisions[k], before, status));
            assert(rids.contains(g.revisions[k].revision_id) <==> before.contains(
                g.revisions[k].revision_id,
            ) || g.revisions[k].revision_id == rid);
            match f.rev(rid) {
                Some(r) => {
                    let i = choose|i: int| 0 <= i < f.revisions.len() && f.revisions[i] == r;
                    if k != i && g.revisions[k].revision_id == rid {
                        if k < i {
                            assert(f.revisions[k].revision_id != f.revisions[i].revision_id);
                        } else {
                            assert(f.revisions[i].revision_id != f.revisions[k].revision_id);
                        }
                    }
                },
                None => {
                    assert(!p(f.revisions[k]));
                },
            }
        }
    }
}

/// Once a file was made speculative nothing in it is active on the branch, and confirming what was
/// made speculative gives the graph back.
pub proof fn law_speculation_can_be_confirmed(g: GraphView, branch: BranchId, path: Seq<char>)
    requires
        graph::ids_unique(g.revisions),
    ensures
        ({
            let rids = patches::in_file(g.revisions, branch, path, RevisionStatus::Active);
            let s = all_marked(g, rids, RevisionStatus::Speculative);
            &&& patches::in_file(s.revisions, branch, path, RevisionStatus::Active) == Seq::<
                NodeRevisionId,
            >::empty()
            &&& patches::all_settled(s, rids, None) == g
        }),
{
    let rids = patches::in_file(g.revisions, branch, path, RevisionStatus::Active);
    let s = all_marked(g, rids, RevisionStatus::Speculative);
    lemma_all_marked(g, rids, RevisionStatus::Speculative);
    lemma_in_file(g.revisions, branch, path, RevisionStatus::Active);
    assert forall|i: int| 0 <= i < s.revisions.len() implies !stands_in(
        #[trigger] s.revisions[i],
        branch,
        path,
        RevisionStatus::Active,
    ) by {
        if !rids.contains(g.revisions[i].revision_id) {
            assert(!stands_in(g.revisions[i], branch, path, RevisionStatus::Active));
        }
    }
    lemma_in_file(s.revisions, branch, path, RevisionStatus::Active);
    assert forall|a: int, b: int| 0 <= a < b < s.revisions.len() implies (
    #[trigger] s.revisions[a]).revision_id != (#[trigger] s.revisions[b]).revision_id by {
        assert(g.revisions[a].revision_id != g.revisions[b].revision_id);
    }
    let back = patches::all_settled(s, rids, None);
    lemma_all_settled(s, rids, None);
    assert forall|i: int| 0 <= i < g.revisions.len() implies back.revisions[i]
        == g.revisions[i] by {
        assert(back.revisions[i] == after_settling(s.revisions[i], rids, None));
        assert(s.revisions[i] == after_marking(g.revisions[i], rids, RevisionStatus::Speculative));
        if rids.contains(g.revisions[i].revision_id) {
            lemma_listed_in_file(g.revisions, branch, path, RevisionStatus::Active, i);
        }
    }
    assert(back.revisions =~= g.revisions);
}

/// A revision whose id is listed for a file stands in it.
proof fn lemma_listed_in_file(
    revs: Seq<RevisionView>,
    branch: BranchId,
    path: Seq<char>,
    status: RevisionStatus,
    i: int,
)
    requires
        graph::ids_unique(revs),
        0 <= i < revs.len(),
        patches::in_file(revs, branch, path, status).contains(revs[i].revision_id),
    ensures
        stands_in(revs[i], branch, path, status),
    decreases revs.len(),
{
    let front = revs.drop_last();
    let some = patches::in_file(front, branch, path, status);
    let all = patches::in_file(revs, branch, path, status);
    let k = choose|k: int| 0 <= k < all.len() && all[k] == revs[i].revision_id;
    assert forall|a: int, b: int| 0 <= a < b < front.len() implies (
    #[trigger] front[a]).revision_id != (#[trigger] front[b]).revision_id by {
        assert(front[a] == revs[a] && front[b] == revs[b]);
    }
    if k < some.len() {
        assert(some[k] == revs[i].revision_id);
        lemma_listed_has_revision(front, branch, path, status, revs[i].revision_id);
        let j = choose|j: int|
            0 <= j < front.len() && (#[trigger] front[j]).revision_id == revs[i].revision_id;
        assert(revs[j] == front[j]);
        if i != j {
            if i < j {
                assert(revs[i].revision_id != revs[j].revision_id);
            } else {
                assert(revs[j].revision_id != revs[i].revision_id);
            }
        }
        assert(front[i] == revs[i]);
        lemma_listed_in_file(front, branch, path, status, i);
    } else {
        assert(revs.last().revision_id == revs[i].revision_id);
        if i < revs.len() - 1 {
            assert(revs[i].revision_id != revs[revs.len() - 1].revision_id);
        }
    }
}

/// An id that is listed for a file is that of a revision.
proof fn lemma_listed_has_revision(
    revs: Seq<RevisionView>,
    branch: BranchId,
    path: Seq<char>,
    status: RevisionStatus,
    rid: NodeRevisionId,
)
    requires
        patches::in_file(revs, branch, path, status).contains(rid),
    ensures
        exists|j: int| 0 <= j < revs.len() && (#[trigger] revs[j]).revision_id == rid,
    decreases revs.len(),
{
    if revs.len() > 0 {
        let front = revs.drop_last();
        let some = patches::in_file(front, branch, path, status);
        let all = patches::in_file(revs, branch, path, status);
        let k = choose|k: int| 0 <= k < all.len() && all[k] == rid;
        if k < some.len() {
            assert(some[k] == rid);
            lemma_listed_has_revision(front, branch, path, status, rid);
            let j = choose|j: int| 0 <= j < front.len() && (#[trigger] front[j]).revision_id == rid;
            assert(revs[j] == front[j]);
        } else {
            assert(revs[revs.len() - 1].revision_id == rid);
        }
    }
}

} // verus!
