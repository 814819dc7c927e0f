//! What a merge comes to for a symbol, told by its body on the three sides.

use crate::graph;
use crate::graph::{GraphView, RevisionStatus, RevisionView};
use crate::graph_snapshot;
use crate::ids::{BranchId, IdentityId, NodeRevisionId};
use crate::keys;
use crate::merge_classify;
use crate::merge_classify::{
    ClassifiedView, MergeIdentityClass, MergeStrategy, MergeWorkflowStatus, ReportView,
};
use crate::merge_promote;
use crate::merge_promote::Promotion;
use crate::seqs;
use crate::tracker;
use vstd::prelude::*;

verus! {

/// The body that bindings give a symbol: that of the bound revision, where the graph holds it.
pub open spec fn body_in(g: GraphView, m: Map<IdentityId, NodeRevisionId>, i: IdentityId) -> Option<
    [u8; 32],
> {
    if m.contains_key(i) {
        match g.rev(m[i]) {
            Some(r) => Some(r.body_hash),
            None => None,
        }
    } else {
        None
    }
}

/// The revision that bindings give a symbol.
pub open spec fn bound_in(m: Map<IdentityId, NodeRevisionId>, i: IdentityId) -> Option<
    NodeRevisionId,
> {
    if m.contains_key(i) {
        Some(m[i])
    } else {
        None
    }
}

/// The class of a symbol tells what the two sides did to its body: a side that left the body of the base
/// as it was changed nothing, and where both changed it, each in its own way, there is a conflict, which
/// is told by who deleted it.
pub proof fn law_class_tells_who_changed(
    base: Option<[u8; 32]>,
    ours: Option<[u8; 32]>,
    theirs: Option<[u8; 32]>,
)
    ensures
        ({
            let class = merge_classify::class_of(base, ours, theirs);
            &&& merge_classify::conflict_suffix(class) is Some <==> ours != base && theirs != base
                && ours != theirs
            &&& class == MergeIdentityClass::OursOnly ==> theirs == base && ours != base
            &&& class == MergeIdentityClass::TheirsOnly ==> ours == base && theirs != base
            &&& class == MergeIdentityClass::Clean ==> ours == base && theirs == base
            &&& class == MergeIdentityClass::BothModifiedSame ==> ours == theirs && ours != base
                && ours is Some
            &&& class == MergeIdentityClass::BothDeleted ==> base is Some && ours is None
                && theirs is None
            &&& class == MergeIdentityClass::OursNew <==> base is None && theirs is None
                && ours is Some
            &&& class == MergeIdentityClass::TheirsNew <==> base is None && ours is None
                && theirs is Some
            &&& class != MergeIdentityClass::RenamedCandidate
            &&& ours != base && theirs != base && ours != theirs && ours is None
                ==> merge_classify::conflict_suffix(class) == Some(":ours_deleted_theirs_modified"@)
            &&& ours != base && theirs != base && ours != theirs && theirs is None
                ==> merge_classify::conflict_suffix(class) == Some(":theirs_deleted_ours_modified"@)
            &&& ours != base && theirs != base && ours != theirs && ours is Some && theirs is Some
                ==> merge_classify::conflict_suffix(class) == Some(Seq::<char>::empty())
        }),
{
}

/// A revision was made by renaming a symbol.
pub open spec fn made_from(g: GraphView, rid: NodeRevisionId, i: IdentityId) -> bool {
    g.rev(rid) is Some && g.rev(rid)->0.rename_source_id == Some(i)
}

/// A symbol is no part of a rename: no bound revision was made by renaming it, and its own revisions
/// were not made by renaming another.
pub open spec fn stands_alone(
    g: GraphView,
    o: Map<IdentityId, NodeRevisionId>,
    t: Map<IdentityId, NodeRevisionId>,
    i: IdentityId,
) -> bool {
    &&& forall|j: IdentityId| #[trigger] o.contains_key(j) ==> !made_from(g, o[j], i)
    &&& forall|j: IdentityId| #[trigger] t.contains_key(j) ==> !made_from(g, t[j], i)
    &&& forall|j: IdentityId| o.contains_key(i) ==> !(#[trigger] made_from(g, o[i], j))
    &&& forall|j: IdentityId| t.contains_key(i) ==> !(#[trigger] made_from(g, t[i], j))
}

/// A rename among the first entries is that of an entry.
proof fn lemma_pair_is_renamed(g: GraphView, all: Seq<ClassifiedView>, n: nat, p: int)
    requires
        n <= all.len(),
        0 <= p < merge_classify::rename_pairs(g, all, n).len(),
    ensures
        exists|k: int|
            0 <= k < n && merge_classify::renamed_from(g, all, #[trigger] all[k]) == Some(
                merge_classify::rename_pairs(g, all, n)[p].0,
            ) && all[k].identity == merge_classify::rename_pairs(g, all, n)[p].1,
    decreases n,
{
    let front = merge_classify::rename_pairs(g, all, (n - 1) as nat);
    if p < front.len() {
        lemma_pair_is_renamed(g, all, (n - 1) as nat, p);
    } else {
        assert(merge_classify::renamed_from(g, all, all[n - 1]) is Some);
    }
}

/// How a symbol that is no part of a rename is classified.
proof fn lemma_entry_of(
    g: GraphView,
    b: Map<IdentityId, NodeRevisionId>,
    o: Map<IdentityId, NodeRevisionId>,
    t: Map<IdentityId, NodeRevisionId>,
    report: ReportView,
    classified: Seq<ClassifiedView>,
    i: IdentityId,
) -> (k: int)
    requires
        merge_classify::phase_a(g, b, o, t, report, classified),
        b.contains_key(i) || o.contains_key(i) || t.contains_key(i),
        stands_alone(g, o, t, i),
    ensures
        0 <= k < classified.len(),
        classified[k].identity == i,
        classified[k].base == bound_in(b, i),
        classified[k].ours == bound_in(o, i),
        classified[k].theirs == bound_in(t, i),
        classified[k].class == merge_classify::class_of(
            body_in(g, b, i),
            body_in(g, o, i),
            body_in(g, t, i),
        ),
        classified[k].name == merge_classify::merge_name(
            g,
            i,
            bound_in(b, i),
            bound_in(o, i),
            bound_in(t, i),
        ),
{
    let pre = choose|pre: Seq<ClassifiedView>| #[trigger]
        merge_classify::preclassified(g, b, o, t, pre) && classified
            == merge_classify::renames_detected(g, pre);
    assert(merge_classify::classifies(pre, i));
    let k = choose|k: int| 0 <= k < pre.len() && (#[trigger] pre[k]).identity == i;
    assert(pre[k] == merge_classify::classified_alone(g, b, o, t, pre[k].identity));
    let pairs = merge_classify::rename_pairs(g, pre, pre.len());
    assert forall|p: int| 0 <= p < pairs.len() implies (#[trigger] pairs[p]).0 != pre[k].identity
        && pairs[p].1 != pre[k].identity by {
        lemma_pair_is_renamed(g, pre, pre.len(), p);
        let c = choose|c: int|
            0 <= c < pre.len() && merge_classify::renamed_from(g, pre, #[trigger] pre[c]) == Some(
                pairs[p].0,
            ) && pre[c].identity == pairs[p].1;
        assert(pre[c] == merge_classify::classified_alone(g, b, o, t, pre[c].identity));
        let j = pre[c].identity;
        if pre[c].ours is Some {
            assert(o.contains_key(j));
            assert(made_from(g, o[j], pairs[p].0));
        } else {
            assert(t.contains_key(j));
            assert(made_from(g, t[j], pairs[p].0));
        }
    }
    merge_classify::lemma_unnamed_stays(pre, pairs, k);
    merge_classify::lemma_renames_keep(pre, pairs);
    k
}

/// A conflict stands in the report under its label.
proof fn lemma_conflict_is_listed(items: Seq<(Seq<char>, MergeIdentityClass)>, k: int)
    requires
        0 <= k < items.len(),
        merge_classify::conflict_suffix(items[k].1) is Some,
    ensures
        merge_classify::report_of(items).status == MergeWorkflowStatus::RequiresResolution,
        merge_classify::report_of(items).conflicts.contains(
            items[k].0 + merge_classify::conflict_suffix(items[k].1)->0,
        ),
    decreases items.len(),
{
    let label = items[k].0 + merge_classify::conflict_suffix(items[k].1)->0;
    let front = items.drop_last();
    let all = merge_classify::report_of(items).conflicts;
    if k < front.len() {
        lemma_conflict_is_listed(front, k);
        let had = merge_classify::report_of(front).conflicts;
        let j = choose|j: int| 0 <= j < had.len() && had[j] == label;
        assert(all[j] == label);
    } else {
        assert(all[all.len() - 1] == label);
    }
}

/// What a symbol goes by in a merge: the name of the revision that ours binds, or else theirs, or else
/// the base.
pub proof fn law_merge_name(
    g: GraphView,
    i: IdentityId,
    base: Option<NodeRevisionId>,
    ours: Option<NodeRevisionId>,
    theirs: Option<NodeRevisionId>,
)
    ensures
        ours is Some && g.rev(ours->0) is Some ==> merge_classify::merge_name(
            g,
            i,
            base,
            ours,
            theirs,
        ) == g.rev(ours->0)->0.qualified_name,
        ours is None && theirs is Some && g.rev(theirs->0) is Some ==> merge_classify::merge_name(
            g,
            i,
            base,
            ours,
            theirs,
        ) == g.rev(theirs->0)->0.qualified_name,
        ours is None && theirs is None && base is Some && g.rev(base->0) is Some
            ==> merge_classify::merge_name(g, i, base, ours, theirs) == g.rev(
            base->0,
        )->0.qualified_name,
{
}

/// Where both sides changed a symbol, each in its own way, or one deleted what the other changed, the
/// report asks for a resolution and lists the symbol; without such a symbol it asks for none, renames
/// aside.
pub proof fn law_conflicts_are_reported(
    g: GraphView,
    b: Map<IdentityId, NodeRevisionId>,
    o: Map<IdentityId, NodeRevisionId>,
    t: Map<IdentityId, NodeRevisionId>,
    report: ReportView,
    classified: Seq<ClassifiedView>,
    i: IdentityId,
)
    requires
        merge_classify::phase_a(g, b, o, t, report, classified),
        b.contains_key(i) || o.contains_key(i) || t.contains_key(i),
        stands_alone(g, o, t, i),
    ensures
        ({
            let base = body_in(g, b, i);
            let ours = body_in(g, o, i);
            let theirs = body_in(g, t, i);
            let name = merge_classify::merge_name(
                g,
                i,
                bound_in(b, i),
                bound_in(o, i),
                bound_in(t, i),
            );
            ours != base && theirs != base && ours != theirs ==> {
                &&& report.status == MergeWorkflowStatus::RequiresResolution
                &&& ours is None ==> report.conflicts.contains(
                    name + ":ours_deleted_theirs_modified"@,
                )
                &&& theirs is None ==> report.conflicts.contains(
                    name + ":theirs_deleted_ours_modified"@,
                )
                &&& ours is Some && theirs is Some ==> report.conflicts.contains(name)
            }
        }),
{
    let k = lemma_entry_of(g, b, o, t, report, classified, i);
    let items = merge_classify::labels_of(classified);
    law_class_tells_who_changed(body_in(g, b, i), body_in(g, o, i), body_in(g, t, i));
    if merge_classify::conflict_suffix(classified[k].class) is Some {
        assert(items[k] == (classified[k].name, classified[k].class));
        lemma_conflict_is_listed(items, k);
        assert(classified[k].name + Seq::<char>::empty() =~= classified[k].name);
    }
}

/// A merge in which no symbol was changed on both sides, each in its own way, and in which nothing was
/// renamed, is ready.
pub proof fn law_merge_without_conflicts_is_ready(
    g: GraphView,
    b: Map<IdentityId, NodeRevisionId>,
    o: Map<IdentityId, NodeRevisionId>,
    t: Map<IdentityId, NodeRevisionId>,
    report: ReportView,
    classified: Seq<ClassifiedView>,
)
    requires
        merge_classify::phase_a(g, b, o, t, report, classified),
        forall|i: IdentityId| #[trigger] stands_alone(g, o, t, i),
        forall|i: IdentityId|
            b.contains_key(i) || o.contains_key(i) || t.contains_key(i) ==> (#[trigger] body_in(
                g,
                o,
                i,
            ) == body_in(g, b, i) || body_in(g, t, i) == body_in(g, b, i) || body_in(g, o, i)
                == body_in(g, t, i)),
    ensures
        report.status == MergeWorkflowStatus::Ready,
        report.conflicts.len() == 0,
{
    let items = merge_classify::labels_of(classified);
    merge_classify::law_report_accounts_for_all(items);
    assert forall|k: int| 0 <= k < items.len() implies merge_classify::conflict_suffix(
        (#[trigger] items[k]).1,
    ) is None by {
        let i = classified[k].identity;
        merge_classify::law_each_identity_once(g, b, o, t, report, classified, i);
        assert(merge_classify::classifies(classified, i));
        assert(stands_alone(g, o, t, i));
        let j = lemma_entry_of(g, b, o, t, report, classified, i);
        if j < k {
            assert(classified[j].identity != classified[k].identity);
        } else if k < j {
            assert(classified[k].identity != classified[j].identity);
        }
        law_class_tells_who_changed(body_in(g, b, i), body_in(g, o, i), body_in(g, t, i));
        assert(body_in(g, o, i) == body_in(g, b, i) || body_in(g, t, i) == body_in(g, b, i)
            || body_in(g, o, i) == body_in(g, t, i));
    }
}

/// What the target binds a symbol to after a merge, where the symbol is no part of a rename: where one
/// side left it as it was, what the other side has; where both did the same, that; where they differ,
/// what the strategy says, and without one nothing changes and the symbol is left unresolved.
pub proof fn law_merge_takes_what_changed(
    g: GraphView,
    b: Map<IdentityId, NodeRevisionId>,
    o: Map<IdentityId, NodeRevisionId>,
    t: Map<IdentityId, NodeRevisionId>,
    report: ReportView,
    classified: Seq<ClassifiedView>,
    st: Promotion,
    target: BranchId,
    strategy: Option<MergeStrategy>,
    i: IdentityId,
)
    requires
        merge_classify::phase_a(g, b, o, t, report, classified),
        b.contains_key(i) || o.contains_key(i) || t.contains_key(i),
        stands_alone(g, o, t, i),
    ensures
        ({
            let base = body_in(g, b, i);
            let ours = body_in(g, o, i);
            let theirs = body_in(g, t, i);
            let done = merge_promote::promoted_all(st, target, classified, strategy);
            let after = keys::bound(done.m, target, i);
            &&& ours != base && theirs == base ==> after == bound_in(o, i)
            &&& ours == base && theirs != base ==> after == bound_in(t, i)
            &&& ours == base && theirs == base && ours is Some ==> after == bound_in(o, i)
            &&& ours == theirs && ours is Some ==> after == bound_in(o, i)
            &&& base is Some && ours is None && theirs is None ==> after is None
            &&& ours != base && theirs != base && ours != theirs ==> {
                &&& strategy is None ==> after == keys::bound(st.m, target, i) && exists|u: int|
                    0 <= u < done.unresolved.len() && (#[trigger] done.unresolved[u]).identity == i
                &&& strategy == Some(MergeStrategy::Ours) && ours is Some ==> after == bound_in(o, i)
                &&& strategy == Some(MergeStrategy::Ours) && ours is None ==> after is None
                &&& strategy == Some(MergeStrategy::Theirs) && theirs is Some ==> after == bound_in(
                    t,
                    i,
                )
                &&& strategy == Some(MergeStrategy::Theirs) && theirs is None ==> after is None
            }
        }),
{
    let k = lemma_entry_of(g, b, o, t, report, classified, i);
    merge_classify::law_each_identity_once(g, b, o, t, report, classified, i);
    law_class_tells_who_changed(body_in(g, b, i), body_in(g, o, i), body_in(g, t, i));
    merge_promote::law_verdicts_are_bound(st, target, classified, strategy, target, i);
    assert(classified[k].identity == i);
    if merge_promote::verdict(classified[k], strategy) is None {
        lemma_unresolved_is_listed(st, target, classified, strategy, k);
    }
}

/// An entry without a verdict is left unresolved.
proof fn lemma_unresolved_is_listed(
    st: Promotion,
    target: BranchId,
    classified: Seq<ClassifiedView>,
    strategy: Option<MergeStrategy>,
    k: int,
)
    requires
        0 <= k < classified.len(),
        merge_promote::verdict(classified[k], strategy) is None,
    ensures
        ({
            let done = merge_promote::promoted_all(st, target, classified, strategy);
            exists|u: int|
                0 <= u < done.unresolved.len() && (#[trigger] done.unresolved[u]).identity
                    == classified[k].identity
        }),
    decreases classified.len(),
{
    let front = classified.drop_last();
    let done = merge_promote::promoted_all(st, target, classified, strategy);
    if k < front.len() {
        lemma_unresolved_is_listed(st, target, front, strategy, k);
        let had = merge_promote::promoted_all(st, target, front, strategy);
        let u = choose|u: int|
            0 <= u < had.unresolved.len() && (#[trigger] had.unresolved[u]).identity
                == front[k].identity;
        assert(done.unresolved[u].identity == classified[k].identity);
    } else {
        assert(done.unresolved[done.unresolved.len() - 1].identity == classified[k].identity);
    }
}

/// Where one side has a symbol that the other renamed away: a symbol that is new on one side and was
/// made from one that is gone is reported as renamed, and the one it was made from is bound no more.
pub proof fn law_rename_is_detected(
    g: GraphView,
    b: Map<IdentityId, NodeRevisionId>,
    o: Map<IdentityId, NodeRevisionId>,
    t: Map<IdentityId, NodeRevisionId>,
    report: ReportView,
    classified: Seq<ClassifiedView>,
    old_id: IdentityId,
    new_id: IdentityId,
)
    requires
        merge_classify::phase_a(g, b, o, t, report, classified),
        body_in(g, b, new_id) is None,
        o.contains_key(new_id) != t.contains_key(new_id),
        o.contains_key(new_id) ==> made_from(g, o[new_id], old_id),
        t.contains_key(new_id) ==> made_from(g, t[new_id], old_id),
        b.contains_key(old_id),
        g.rev(b[old_id]) is Some,
        !o.contains_key(old_id),
        !t.contains_key(old_id) || body_in(g, t, old_id) == body_in(g, b, old_id),
        old_id != new_id,
    ensures
        exists|k: int|
            0 <= k < classified.len() && (#[trigger] classified[k]).identity == new_id
                && classified[k].class == MergeIdentityClass::RenamedCandidate,
        exists|d: int|
            0 <= d < classified.len() && (#[trigger] classified[d]).identity == old_id
                && classified[d].class == MergeIdentityClass::BothDeleted,
{
    let pre = choose|pre: Seq<ClassifiedView>| #[trigger]
        merge_classify::preclassified(g, b, o, t, pre) && classified
            == merge_classify::renames_detected(g, pre);
    assert(merge_classify::classifies(pre, new_id));
    assert(merge_classify::classifies(pre, old_id));
    let k = choose|k: int| 0 <= k < pre.len() && (#[trigger] pre[k]).identity == new_id;
    let d = choose|d: int| 0 <= d < pre.len() && (#[trigger] pre[d]).identity == old_id;
    assert(pre[k] == merge_classify::classified_alone(g, b, o, t, new_id));
    assert(pre[d] == merge_classify::classified_alone(g, b, o, t, old_id));
    assert(merge_classify::was_deleted(pre[d]));
    assert(merge_classify::deleted_among(pre, old_id));
    assert(merge_classify::was_created(pre[k]));
    assert(merge_classify::renamed_from(g, pre, pre[k]) == Some(old_id));
    let pairs = merge_classify::rename_pairs(g, pre, pre.len());
    lemma_renamed_is_pair(g, pre, pre.len(), k);
    merge_classify::lemma_renames_keep(pre, pairs);
    merge_classify::lemma_rename_pairs(g, pre, pre.len());
    assert forall|p: int| 0 <= p < pairs.len() implies (#[trigger] pairs[p]).0 != new_id
        && pairs[p].1 != old_id by {
        let x = choose|x: int|
            0 <= x < pre.len() && (#[trigger] pre[x]).identity == pairs[p].0
                && merge_classify::was_deleted(pre[x]);
        let y = choose|y: int|
            0 <= y < pre.len() && merge_classify::was_created(#[trigger] pre[y])
                && pre[y].identity == pairs[p].1;
        assert(pre[x] == merge_classify::classified_alone(g, b, o, t, pre[x].identity));
        assert(pre[y] == merge_classify::classified_alone(g, b, o, t, pre[y].identity));
    }
    lemma_new_stays_renamed(pre, pairs, k);
    lemma_old_stays_gone(pre, pairs, d);
    assert(classified[k].identity == new_id);
    assert(classified[d].identity == old_id);
}

/// A renamed entry is among the renames.
proof fn lemma_renamed_is_pair(g: GraphView, all: Seq<ClassifiedView>, n: nat, k: int)
    requires
        0 <= k < n <= all.len(),
        merge_classify::renamed_from(g, all, all[k]) is Some,
    ensures
        exists|p: int|
            0 <= p < merge_classify::rename_pairs(g, all, n).len()
                && (#[trigger] merge_classify::rename_pairs(g, all, n)[p]).1 == all[k].identity
                && merge_classify::rename_pairs(g, all, n)[p].0 == merge_classify::renamed_from(
                g,
                all,
                all[k],
            )->0,
    decreases n,
{
    let now = merge_classify::rename_pairs(g, all, n);
    if k < n - 1 {
        lemma_renamed_is_pair(g, all, (n - 1) as nat, k);
        let front = merge_classify::rename_pairs(g, all, (n - 1) as nat);
        let p = choose|p: int|
            0 <= p < front.len() && (#[trigger] front[p]).1 == all[k].identity && front[p].0
                == merge_classify::renamed_from(g, all, all[k])->0;
        assert(now[p].1 == all[k].identity);
    } else {
        assert(now[now.len() - 1].1 == all[k].identity);
    }
}

/// An entry that a rename makes new is a rename once all are taken into account, unless a later one
/// takes it for gone.
proof fn lemma_new_stays_renamed(
    s: Seq<ClassifiedView>,
    pairs: Seq<(IdentityId, IdentityId)>,
    k: int,
)
    requires
        0 <= k < s.len(),
        exists|p: int| 0 <= p < pairs.len() && (#[trigger] pairs[p]).1 == s[k].identity,
        forall|p: int| 0 <= p < pairs.len() ==> (#[trigger] pairs[p]).0 != s[k].identity,
    ensures
        merge_classify::renames_applied(s, pairs)[k].class == MergeIdentityClass::RenamedCandidate,
    decreases pairs.len(),
{
    let front = pairs.drop_last();
    let last = pairs.last();
    merge_classify::lemma_renames_keep(s, front);
    merge_classify::lemma_renames_keep(s, pairs);
    assert(last == pairs[pairs.len() - 1]);
    if last.1 != s[k].identity {
        let p = choose|p: int| 0 <= p < pairs.len() && (#[trigger] pairs[p]).1 == s[k].identity;
        assert(front[p].1 == s[k].identity);
        assert forall|q: int| 0 <= q < front.len() implies (#[trigger] front[q]).0 != s[k].identity by {
            assert(front[q] == pairs[q]);
        }
        lemma_new_stays_renamed(s, front, k);
    }
}

/// An entry that a rename makes gone stays so, unless a later one takes it for new.
proof fn lemma_old_stays_gone(
    s: Seq<ClassifiedView>,
    pairs: Seq<(IdentityId, IdentityId)>,
    k: int,
)
    requires
        0 <= k < s.len(),
        exists|p: int| 0 <= p < pairs.len() && (#[trigger] pairs[p]).0 == s[k].identity,
        forall|p: int| 0 <= p < pairs.len() ==> (#[trigger] pairs[p]).1 != s[k].identity,
    ensures
        merge_classify::renames_applied(s, pairs)[k].class == MergeIdentityClass::BothDeleted,
    decreases pairs.len(),
{
    let front = pairs.drop_last();
    let last = pairs.last();
    merge_classify::lemma_renames_keep(s, front);
    merge_classify::lemma_renames_keep(s, pairs);
    assert(last == pairs[pairs.len() - 1]);
    if last.0 != s[k].identity {
        let p = choose|p: int| 0 <= p < pairs.len() && (#[trigger] pairs[p]).0 == s[k].identity;
        assert(front[p].0 == s[k].identity);
        assert forall|q: int| 0 <= q < front.len() implies (#[trigger] front[q]).1 != s[k].identity by {
            assert(front[q] == pairs[q]);
        }
        lemma_old_stays_gone(s, front, k);
    }
}

/// What a promotion does to the revisions of the graph: only those that it lists as orphaned change,
/// these were active, and they are orphaned from then on.
pub proof fn law_only_losers_are_orphaned(
    st: Promotion,
    target: BranchId,
    classified: Seq<ClassifiedView>,
    strategy: Option<MergeStrategy>,
    rid: NodeRevisionId,
)
    requires
        graph::ids_unique(st.g.revisions),
        st.orphaned.len() == 0,
    ensures
        ({
            let done = merge_promote::promoted_all(st, target, classified, strategy);
            &&& graph::ids_unique(done.g.revisions)
            &&& done.g.edges == st.g.edges
            &&& done.g.kinds == st.g.kinds
            &&& !done.orphaned.contains(rid) ==> done.g.rev(rid) == st.g.rev(rid)
            &&& done.orphaned.contains(rid) ==> st.g.rev(rid) is Some && st.g.rev(rid)->0.status
                == RevisionStatus::Active && done.g.rev(rid) == Some(
                RevisionView { status: RevisionStatus::Orphaned, ..st.g.rev(rid)->0 },
            )
        }),
    decreases classified.len(),
{
    if classified.len() > 0 {
        let front = classified.drop_last();
        law_only_losers_are_orphaned(st, target, front, strategy, rid);
        let had = merge_promote::promoted_all(st, target, front, strategy);
        let c = classified.last();
        let done = merge_promote::promoted_all(st, target, classified, strategy);
        if let Some(Some(win)) = merge_promote::verdict(c, strategy) {
            if let Some(l) = merge_promote::orphan_of(had.g, c, win) {
                law_only_losers_are_orphaned(st, target, front, strategy, l);
                let r = had.g.rev(l)->0;
                let x = RevisionView { status: RevisionStatus::Orphaned, ..r };
                seqs::lemma_first_is(had.g.revisions, |y: RevisionView| y.revision_id == l);
                assert(r.revision_id == l);
                graph_snapshot::lemma_put_keeps(had.g.revisions, x);
                graph::law_put_then_get(had.g, x, rid);
                tracker::lemma_push_contains(had.orphaned, l, rid);
                tracker::lemma_push_contains(had.orphaned, l, l);
            }
        }
    }
}

/// The loser of a conflict that a strategy decides is orphaned, where it was active; a symbol on which
/// the sides agree leaves nothing orphaned.
pub proof fn law_loser_is_orphaned(
    g: GraphView,
    c: ClassifiedView,
    strategy: Option<MergeStrategy>,
    win: NodeRevisionId,
    lost: NodeRevisionId,
)
    requires
        win != lost,
        merge_promote::verdict(c, strategy) == Some(Some(win)),
        c.ours == Some(win) && c.theirs == Some(lost) || c.theirs == Some(win) && c.ours == Some(
            lost,
        ),
    ensures
        (c.class == MergeIdentityClass::BothModifiedUnresolved || c.class
            == MergeIdentityClass::BothNewDivergent) && g.rev(lost) is Some && g.rev(
            lost,
        )->0.status == RevisionStatus::Active ==> merge_promote::orphan_of(g, c, win) == Some(lost),
        c.class == MergeIdentityClass::Clean || c.class == MergeIdentityClass::OursOnly || c.class
            == MergeIdentityClass::TheirsOnly || c.class == MergeIdentityClass::BothModifiedSame
            ==> merge_promote::orphan_of(g, c, win) is None,
        merge_promote::orphan_of(g, c, win) != Some(win),
{
}

} // verus!
