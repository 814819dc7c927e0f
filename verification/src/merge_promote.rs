//! The second phase of a merge: winning revisions are bound on the target branch.

use crate::graph::{GraphView, InMemoryGraph, RevisionStatus};
use crate::ids;
use crate::ids::{BranchId, IdentityId, NodeRevisionId, bytes16};
use crate::keys;
use crate::keys::revision_binding_kv_key;
use crate::kv::MemoryKv;
use crate::merge_classify;
use crate::merge_classify::{
    ClassifiedMergeIdentity, ClassifiedView, MergeIdentityClass, MergeStrategy,
};
use crate::text;
use crate::text::{chars_of, owned, texts_contain};
use crate::tracker;
use vstd::prelude::*;

verus! {

/// What the second phase did.
#[derive(Debug, Clone, Default)]
pub struct PhaseBResult {
    pub promoted: Vec<(IdentityId, NodeRevisionId)>,
    pub orphaned_revisions: Vec<NodeRevisionId>,
    pub unresolved_conflicts: Vec<ClassifiedMergeIdentity>,
}

impl PhaseBResult {
    /// Nothing was done.
    pub fn new() -> (r: Self)
        ensures
            r.promoted@.len() == 0,
            r.orphaned_revisions@.len() == 0,
            r.unresolved_conflicts@.len() == 0,
    {
        PhaseBResult {
            promoted: Vec::new(),
            orphaned_revisions: Vec::new(),
            unresolved_conflicts: Vec::new(),
        }
    }
}

/// The store, the graph and what has been done so far.
pub struct Promotion {
    pub m: Map<Seq<char>, Seq<u8>>,
    pub g: GraphView,
    pub promoted: Seq<(IdentityId, NodeRevisionId)>,
    pub orphaned: Seq<NodeRevisionId>,
    pub unresolved: Seq<ClassifiedView>,
}

/// The winning revision of an entry, `Some(None)` where the identity goes, and `None` where it takes
/// a strategy to say.
pub open spec fn verdict(c: ClassifiedView, strategy: Option<MergeStrategy>) -> Option<
    Option<NodeRevisionId>,
> {
    match c.class {
        MergeIdentityClass::Clean => Some(merge_classify::either(c.ours, c.base)),
        MergeIdentityClass::OursOnly => Some(c.ours),
        MergeIdentityClass::OursNew => Some(c.ours),
        MergeIdentityClass::TheirsOnly => Some(c.theirs),
        MergeIdentityClass::TheirsNew => Some(c.theirs),
        MergeIdentityClass::BothModifiedSame => Some(c.ours),
        MergeIdentityClass::RenamedCandidate => Some(merge_classify::either(c.theirs, c.ours)),
        MergeIdentityClass::BothDeleted => Some(None),
        MergeIdentityClass::OursDeletedTheirsModified => match strategy {
            Some(MergeStrategy::Ours) => Some(None),
            Some(MergeStrategy::Theirs) => Some(c.theirs),
            None => None,
        },
        MergeIdentityClass::TheirsDeletedOursModified => match strategy {
            Some(MergeStrategy::Ours) => Some(c.ours),
            Some(MergeStrategy::Theirs) => Some(None),
            None => None,
        },
        _ => match strategy {
            Some(MergeStrategy::Ours) => Some(c.ours),
            Some(MergeStrategy::Theirs) => Some(c.theirs),
            None => None,
        },
    }
}

/// The revision that lost to `win`.
pub open spec fn loser(c: ClassifiedView, win: NodeRevisionId) -> Option<NodeRevisionId> {
    if c.ours == Some(win) {
        c.theirs
    } else if c.theirs == Some(win) {
        c.ours
    } else {
        None
    }
}

/// The revision that an entry leaves orphaned: the active loser of a conflict.
pub open spec fn orphan_of(g: GraphView, c: ClassifiedView, win: NodeRevisionId) -> Option<
    NodeRevisionId,
> {
    match loser(c, win) {
        Some(l) => if merge_classify::conflict_suffix(c.class) is Some && l != win && (g.rev(l) matches Some(rev)
            && rev.status == RevisionStatus::Active) {
            Some(l)
        } else {
            None
        },
        None => None,
    }
}

/// One entry is promoted.
pub open spec fn promote_step(
    st: Promotion,
    target: BranchId,
    c: ClassifiedView,
    strategy: Option<MergeStrategy>,
) -> Promotion {
    match verdict(c, strategy) {
        None => Promotion { unresolved: st.unresolved.push(c), ..st },
        Some(None) => Promotion { m: st.m.remove(keys::binding_key(target, c.identity)), ..st },
        Some(Some(win)) => {
            let bound_now = Promotion {
                m: st.m.insert(keys::binding_key(target, c.identity), win.0@),
                promoted: st.promoted.push((c.identity, win)),
                ..st
            };
            match orphan_of(st.g, c, win) {
                Some(l) => Promotion {
                    g: st.g.with_status(l, RevisionStatus::Orphaned),
                    orphaned: st.orphaned.push(l),
                    ..bound_now
                },
                None => bound_now,
            }
        },
    }
}

/// Entries are promoted in order.
pub open spec fn promoted_all(
    st: Promotion,
    target: BranchId,
    classified: Seq<ClassifiedView>,
    strategy: Option<MergeStrategy>,
) -> Promotion
    decreases classified.len(),
{
    if classified.len() == 0 {
        st
    } else {
        promote_step(
            promoted_all(st, target, classified.drop_last(), strategy),
            target,
            classified.last(),
            strategy,
        )
    }
}

/// Where promotion starts.
pub open spec fn promotion_start(m: Map<Seq<char>, Seq<u8>>, g: GraphView) -> Promotion {
    Promotion {
        m,
        g,
        promoted: Seq::empty(),
        orphaned: Seq::empty(),
        unresolved: Seq::empty(),
    }
}

/// Reads the verdict on an entry.
fn decide(c: &ClassifiedMergeIdentity, strategy: Option<MergeStrategy>) -> (r: Option<
    Option<NodeRevisionId>,
>)
    ensures
        r == verdict(c@, strategy),
{
    match c.class {
        MergeIdentityClass::Clean => Some(
            if c.ours_revision.is_some() {
                c.ours_revision
            } else {
                c.base_revision
            },
        ),
        MergeIdentityClass::OursOnly | MergeIdentityClass::OursNew => Some(c.ours_revision),
        MergeIdentityClass::TheirsOnly | MergeIdentityClass::TheirsNew => Some(c.theirs_revision),
        MergeIdentityClass::BothModifiedSame => Some(c.ours_revision),
        MergeIdentityClass::RenamedCandidate => Some(
            if c.theirs_revision.is_some() {
                c.theirs_revision
            } else {
                c.ours_revision
            },
        ),
        MergeIdentityClass::BothDeleted => Some(None),
        MergeIdentityClass::OursDeletedTheirsModified => match strategy {
            Some(MergeStrategy::Ours) => Some(None),
            Some(MergeStrategy::Theirs) => Some(c.theirs_revision),
            None => None,
        },
        MergeIdentityClass::TheirsDeletedOursModified => match strategy {
            Some(MergeStrategy::Ours) => Some(c.ours_revision),
            Some(MergeStrategy::Theirs) => Some(None),
            None => None,
        },
        MergeIdentityClass::BothModifiedUnresolved
        | MergeIdentityClass::BothNewDivergent
        | MergeIdentityClass::BaseDeletedFeatureNew => match strategy {
            Some(MergeStrategy::Ours) => Some(c.ours_revision),
            Some(MergeStrategy::Theirs) => Some(c.theirs_revision),
            None => None,
        },
    }
}

/// Whether a class is a conflict.
fn is_conflict(class: MergeIdentityClass) -> (r: bool)
    ensures
        r == (merge_classify::conflict_suffix(class) is Some),
{
    match class {
        MergeIdentityClass::BothModifiedUnresolved
        | MergeIdentityClass::BothNewDivergent
        | MergeIdentityClass::OursDeletedTheirsModified
        | MergeIdentityClass::TheirsDeletedOursModified
        | MergeIdentityClass::BaseDeletedFeatureNew => true,
        _ => false,
    }
}

/// Whether an id is the given one.
fn is_revision(a: Option<NodeRevisionId>, b: NodeRevisionId) -> (r: bool)
    ensures
        r == (a == Some(b)),
{
    match a {
        Some(x) => x == b,
        None => false,
    }
}

/// The revision that an entry leaves orphaned.
fn find_orphan(graph: &InMemoryGraph, c: &ClassifiedMergeIdentity, win: NodeRevisionId) -> (r: Option<
    NodeRevisionId,
>)
    ensures
        r == orphan_of(graph@, c@, win),
{
    if !is_conflict(c.class) {
        return None;
    }
    let lose = if is_revision(c.ours_revision, win) {
        c.theirs_revision
    } else if is_revision(c.theirs_revision, win) {
        c.ours_revision
    } else {
        None
    };
    match lose {
        Some(l) => {
            if l == win {
                return None;
            }
            match graph.get_revision(l) {
                Some(rev) => match rev.status {
                    RevisionStatus::Active => Some(l),
                    _ => None,
                },
                None => None,
            }
        },
        None => None,
    }
}

/// Binds the winning revisions on the target branch, and marks the active losers of conflicts as
/// orphaned. Without a strategy, conflicts stay unresolved.
pub fn phase_b_promote(
    kv: &mut MemoryKv,
    graph: &mut InMemoryGraph,
    target_branch: BranchId,
    classified: &Vec<ClassifiedMergeIdentity>,
    strategy: Option<MergeStrategy>,
) -> (r: PhaseBResult)
    ensures
        promoted_all(
            promotion_start(old(kv)@, old(graph)@),
            target_branch,
            merge_classify::classified_views(classified@),
            strategy,
        ) == (Promotion {
            m: final(kv)@,
            g: final(graph)@,
            promoted: r.promoted@,
            orphaned: r.orphaned_revisions@,
            unresolved: merge_classify::classified_views(r.unresolved_conflicts@),
        }),
{
    let mut result = PhaseBResult::new();
    let ghost views = merge_classify::classified_views(classified@);
    let ghost start = promotion_start(kv@, graph@);
    let mut i: usize = 0;
    proof {
        assert(views.take(0) =~= Seq::empty());
        assert(result.promoted@ =~= start.promoted);
        assert(result.orphaned_revisions@ =~= start.orphaned);
        assert(merge_classify::classified_views(result.unresolved_conflicts@) =~= start.unresolved);
    }
    while i < classified.len()
        invariant
            i <= classified.len(),
            views == merge_classify::classified_views(classified@),
            start == promotion_start(old(kv)@, old(graph)@),
            promoted_all(start, target_branch, views.take(i as int), strategy) == (Promotion {
                m: kv@,
                g: graph@,
                promoted: result.promoted@,
                orphaned: result.orphaned_revisions@,
                unresolved: merge_classify::classified_views(result.unresolved_conflicts@),
            }),
        decreases classified.len() - i,
    {
        let c = &classified[i];
        let ghost st = promoted_all(start, target_branch, views.take(i as int), strategy);
        let ghost un = merge_classify::classified_views(result.unresolved_conflicts@);
        proof {
            assert(views.take(i + 1).drop_last() =~= views.take(i as int));
            assert(views.take(i + 1).last() == c@);
        }
        match decide(c, strategy) {
            None => {
                result.unresolved_conflicts.push(c.copied());
                assert(merge_classify::classified_views(result.unresolved_conflicts@) =~= un.push(c@));
            },
            Some(Some(win)) => {
                kv.set(
                    revision_binding_kv_key(target_branch, c.identity_id).as_str(),
                    bytes16(&win.0),
                );
                result.promoted.push((c.identity_id, win));
                if let Some(l) = find_orphan(graph, c, win) {
                    graph.set_revision_status(l, RevisionStatus::Orphaned);
                    result.orphaned_revisions.push(l);
                }
            },
            Some(None) => {
                kv.delete(revision_binding_kv_key(target_branch, c.identity_id).as_str());
            },
        }
        i = i + 1;
    }
    assert(views.take(views.len() as int) =~= views);
    result
}

/// With a strategy no conflict stays unresolved.
pub proof fn law_strategy_resolves_all(
    st: Promotion,
    target: BranchId,
    classified: Seq<ClassifiedView>,
    strategy: MergeStrategy,
)
    ensures
        promoted_all(st, target, classified, Some(strategy)).unresolved == st.unresolved,
    decreases classified.len(),
{
    if classified.len() > 0 {
        law_strategy_resolves_all(st, target, classified.drop_last(), strategy);
    }
}

/// What `branch` binds `identity` to after promotion: on the target, what the last verdict on it
/// says, and where there was none, or on another branch, what it bound before.
pub proof fn law_verdicts_are_bound(
    st: Promotion,
    target: BranchId,
    classified: Seq<ClassifiedView>,
    strategy: Option<MergeStrategy>,
    branch: BranchId,
    identity: IdentityId,
)
    requires
        forall|k: int, l: int|
            0 <= k < l < classified.len() ==> (#[trigger] classified[k]).identity != (
            #[trigger] classified[l]).identity,
    ensures
        ({
            let after = keys::bound(
                promoted_all(st, target, classified, strategy).m,
                branch,
                identity,
            );
            &&& branch != target || !merge_classify::classifies(classified, identity) ==> after == keys::bound(
                st.m,
                branch,
                identity,
            )
            &&& forall|k: int|
                0 <= k < classified.len() && (#[trigger] classified[k]).identity == identity
                    && branch == target ==> after == (match verdict(classified[k], strategy) {
                    Some(v) => v,
                    None => keys::bound(st.m, branch, identity),
                })
        }),
    decreases classified.len(),
{
    if classified.len() > 0 {
        let front = classified.drop_last();
        let c = classified.last();
        assert(c == classified[classified.len() - 1]);
        assert forall|k: int, l: int| 0 <= k < l < front.len() implies (#[trigger] front[k]).identity
            != (#[trigger] front[l]).identity by {
            assert(front[k] == classified[k] && front[l] == classified[l]);
        }
        law_verdicts_are_bound(st, target, front, strategy, branch, identity);
        keys::lemma_binding_key_injective(target, c.identity, branch, identity);
        let before = promoted_all(st, target, front, strategy);
        if let Some(Some(win)) = verdict(c, strategy) {
            ids::lemma_array_of(win.0);
        }
        if merge_classify::classifies(front, identity) {
            let k = choose|k: int| 0 <= k < front.len() && (#[trigger] front[k]).identity == identity;
            assert(classified[k].identity == identity);
        }
        assert forall|k: int|
            0 <= k < classified.len() && (#[trigger] classified[k]).identity == identity && branch
                == target implies keys::bound(
            promoted_all(st, target, classified, strategy).m,
            branch,
            identity,
        ) == (match verdict(classified[k], strategy) {
            Some(v) => v,
            None => keys::bound(st.m, branch, identity),
        }) by {
            if k < front.len() {
                assert(front[k] == classified[k]);
            } else {
                if merge_classify::classifies(front, identity) {
                    let j = choose|j: int|
                        0 <= j < front.len() && (#[trigger] front[j]).identity == identity;
                    assert(classified[j].identity == identity);
                }
            }
        }
    }
}

/// The file of a revision, where the revision is there and has one.
pub open spec fn file_of(g: GraphView, rid: Option<NodeRevisionId>) -> Option<Seq<char>> {
    match rid {
        Some(r) => match g.rev(r) {
            Some(rev) => if rev.file_path.len() > 0 {
                Some(rev.file_path)
            } else {
                None
            },
            None => None,
        },
        None => None,
    }
}

/// Some revision of an entry stands in `path`.
pub open spec fn entry_touches(g: GraphView, c: ClassifiedView, path: Seq<char>) -> bool {
    file_of(g, c.base) == Some(path) || file_of(g, c.ours) == Some(path) || file_of(g, c.theirs)
        == Some(path)
}

/// Some revision of some entry stands in `path`.
pub open spec fn touched(g: GraphView, s: Seq<ClassifiedView>, path: Seq<char>) -> bool {
    exists|k: int| 0 <= k < s.len() && #[trigger] entry_touches(g, s[k], path)
}

/// Adds the file of a revision, unless it is there.
fn add_file(paths: &mut Vec<String>, graph: &InMemoryGraph, rid: Option<NodeRevisionId>)
    requires
        text::texts(old(paths)@).no_duplicates(),
    ensures
        text::texts(final(paths)@).no_duplicates(),
        forall|p: Seq<char>| #[trigger]
            text::texts(final(paths)@).contains(p) <==> text::texts(old(paths)@).contains(p) || file_of(
                graph@,
                rid,
            ) == Some(p),
{
    let ghost before = text::texts(paths@);
    if let Some(id) = rid {
        if let Some(rev) = graph.get_revision(id) {
            let path = owned(rev.file_path.as_str());
            let cs = chars_of(path.as_str());
            let ghost pv = path@;
            if cs.len() > 0 && !texts_contain(paths, path.as_str()) {
                paths.push(path);
                assert(text::texts(paths@) =~= before.push(pv));
            }
            proof {
                assert forall|p: Seq<char>| #[trigger] text::texts(paths@).contains(p) <==> before.contains(
                    p,
                ) || file_of(graph@, rid) == Some(p) by {
                    tracker::lemma_push_contains(before, pv, p);
                }
            }
        }
    }
}

/// The files that the revisions of classified identities stand in, each once.
pub fn affected_paths_for_classified(
    graph: &InMemoryGraph,
    classified: &Vec<ClassifiedMergeIdentity>,
) -> (r: Vec<String>)
    ensures
        text::texts(r@).no_duplicates(),
        forall|p: Seq<char>| #[trigger]
            text::texts(r@).contains(p) <==> touched(graph@, merge_classify::classified_views(classified@), p),
{
    let ghost views = merge_classify::classified_views(classified@);
    let mut paths: Vec<String> = Vec::new();
    let mut i: usize = 0;
    assert(text::texts(paths@) =~= Seq::<Seq<char>>::empty());
    while i < classified.len()
        invariant
            i <= classified.len(),
            views == merge_classify::classified_views(classified@),
            text::texts(paths@).no_duplicates(),
            forall|p: Seq<char>| #[trigger]
                text::texts(paths@).contains(p) <==> touched(graph@, views.take(i as int), p),
        decreases classified.len() - i,
    {
        let c = &classified[i];
        let ghost before = text::texts(paths@);
        add_file(&mut paths, graph, c.base_revision);
        let ghost p1 = text::texts(paths@);
        add_file(&mut paths, graph, c.ours_revision);
        let ghost p2 = text::texts(paths@);
        add_file(&mut paths, graph, c.theirs_revision);
        proof {
            let s = views.take(i as int);
            let t = views.take(i + 1);
            assert(t =~= s.push(c@));
            assert forall|p: Seq<char>| #[trigger] text::texts(paths@).contains(p) <==> touched(
                graph@,
                t,
                p,
            ) by {
                assert(p2.contains(p) <==> p1.contains(p) || file_of(graph@, c.ours_revision)
                    == Some(p));
                assert(p1.contains(p) <==> before.contains(p) || file_of(graph@, c.base_revision)
                    == Some(p));
                assert(before.contains(p) <==> touched(graph@, s, p));
                if touched(graph@, s, p) {
                    let k = choose|k: int| 0 <= k < s.len() && #[trigger] entry_touches(graph@, s[k], p);
                    assert(entry_touches(graph@, t[k], p));
                }
                if entry_touches(graph@, c@, p) {
                    assert(entry_touches(graph@, t[i as int], p));
                }
                if touched(graph@, t, p) && !entry_touches(graph@, c@, p) {
                    let k = choose|k: int| 0 <= k < t.len() && #[trigger] entry_touches(graph@, t[k], p);
                    assert(entry_touches(graph@, s[k], p));
                }
            }
        }
        i = i + 1;
    }
    assert(views.take(views.len() as int) =~= views);
    paths
}

} // verus!
