//! What the third phase of a merge does to edges, told by the edges and by what the branch binds.

use crate::cardinality;
use crate::cardinality::{CardinalityViolation, EdgeLimit};
use crate::graph::{EdgeType, GraphEdge, GraphView};
use crate::ids::{BranchId, IdentityId, NodeRevisionId};
use crate::merge_classify::{ClassifiedView, MergeIdentityClass};
use crate::merge_edges;
use crate::merge_edges::{EdgeState, PhaseCView};
use crate::text;
use crate::tree_laws;
use vstd::prelude::*;

verus! {

/// What an edge becomes: its target's signature is renewed if it was known and the target that is bound
/// has another; the rest stays.
pub open spec fn renewed(g: GraphView, b: Map<IdentityId, NodeRevisionId>, e: GraphEdge, f: GraphEdge) -> bool {
    &&& f.edge_id == e.edge_id && f.ty == e.ty && f.source_revision_id == e.source_revision_id
    &&& f.target_identity_id == e.target_identity_id && f.anchor == e.anchor
    &&& f.resolution.resolver == e.resolution.resolver && f.resolution.last_validation_ms
        == e.resolution.last_validation_ms
    &&& f.resolution.target_signature_hash == match g.rev(b[e.target_identity_id]) {
        Some(t) => if exists|i: int| 0 <= i < 32 && #[trigger] e.resolution.target_signature_hash@[i] != 0 {
            t.signature_hash
        } else {
            e.resolution.target_signature_hash
        },
        None => e.resolution.target_signature_hash,
    }
}

/// The edges whose targets are bound.
pub open spec fn bound_edges(edges: Seq<GraphEdge>, b: Map<IdentityId, NodeRevisionId>) -> Seq<GraphEdge> {
    edges.filter(|e: GraphEdge| b.contains_key(e.target_identity_id))
}

/// The edges whose targets are bound, were known, and have another signature now.
pub open spec fn drifted_edges(
    g: GraphView,
    edges: Seq<GraphEdge>,
    b: Map<IdentityId, NodeRevisionId>,
) -> Seq<GraphEdge> {
    edges.filter(
        |e: GraphEdge|
            b.contains_key(e.target_identity_id) && g.rev(b[e.target_identity_id]) is Some
                && e.resolution.target_signature_hash != g.rev(b[e.target_identity_id])->0.signature_hash && (
            exists|i: int| 0 <= i < 32 && #[trigger] e.resolution.target_signature_hash@[i] != 0),
    )
}

/// Looking at the edges of a revision keeps those whose targets are bound, in order, each as it is or
/// renewed; every edge is counted as looked at, the others as dangling, the changed ones as resolved
/// again and as drifts.
proof fn lemma_swept(
    c: PhaseCView,
    g: GraphView,
    b: Map<IdentityId, NodeRevisionId>,
    rid: NodeRevisionId,
    edges: Seq<GraphEdge>,
)
    ensures
        ({
            let sw = merge_edges::swept_edges(c, g, b, rid, edges);
            let kept = bound_edges(edges, b);
            &&& sw.kept.len() == kept.len()
            &&& forall|i: int| 0 <= i < kept.len() ==> renewed(g, b, kept[i], #[trigger] sw.kept[i])
            &&& !sw.changed ==> sw.kept == edges
            &&& c.checked + edges.len() <= usize::MAX ==> sw.c.checked == c.checked + edges.len()
            &&& c.dangling + edges.len() - kept.len() <= usize::MAX ==> sw.c.dangling == c.dangling
                + edges.len() - kept.len()
            &&& c.reresolved + drifted_edges(g, edges, b).len() <= usize::MAX ==> sw.c.reresolved
                == c.reresolved + drifted_edges(g, edges, b).len()
            &&& sw.c.drifts.len() == c.drifts.len() + drifted_edges(g, edges, b).len()
            &&& kept.len() <= edges.len()
            &&& sw.c.violations == c.violations
        }),
    decreases edges.len(),
{
    reveal(Seq::filter);
    if edges.len() > 0 {
        let front = edges.drop_last();
        let e = edges.last();
        lemma_swept(c, g, b, rid, front);
        let before = merge_edges::swept_edges(c, g, b, rid, front);
        let sw = merge_edges::swept_edges(c, g, b, rid, edges);
        let kept = bound_edges(edges, b);
        let kept0 = bound_edges(front, b);
        assert(edges =~= front.push(e));
        assert(merge_edges::all_zero(e.resolution.target_signature_hash) <==> !(exists|i: int|
            0 <= i < 32 && #[trigger] e.resolution.target_signature_hash@[i] != 0));
        if b.contains_key(e.target_identity_id) {
            assert(kept == kept0.push(e));
            assert forall|i: int| 0 <= i < kept.len() implies renewed(g, b, kept[i], #[trigger] sw.kept[i]) by {
                if i < kept0.len() {
                    assert(renewed(g, b, kept0[i], before.kept[i]));
                }
            }
        } else {
            assert(kept == kept0);
        }
    }
}

/// What becomes of the edges of a promoted revision: those whose targets the branch does not bind go,
/// the others stay in order, with the signatures of their targets renewed.
pub proof fn law_promoted_edges(
    st: EdgeState,
    b: Map<IdentityId, NodeRevisionId>,
    limits: Seq<EdgeLimit>,
    rid: NodeRevisionId,
    i: int,
)
    requires
        st.g.rev(rid) is Some,
    ensures
        ({
            let after = merge_edges::reconcile_one(st, b, limits, rid);
            let kept = bound_edges(st.g.out(rid), b);
            &&& after.g.out(rid).len() == kept.len()
            &&& 0 <= i < kept.len() ==> renewed(st.g, b, kept[i], after.g.out(rid)[i])
            &&& forall|other: NodeRevisionId| other != rid ==> #[trigger] after.g.out(other) == st.g.out(other)
            &&& after.g.revisions == st.g.revisions
        }),
{
    lemma_swept(st.c, st.g, b, rid, st.g.out(rid));
}

/// What is counted of the edges of a promoted revision: all as looked at, those whose targets are not
/// bound as dangling, those whose targets' signatures changed as resolved again, each with a line.
pub proof fn law_promoted_edges_are_counted(
    st: EdgeState,
    b: Map<IdentityId, NodeRevisionId>,
    limits: Seq<EdgeLimit>,
    rid: NodeRevisionId,
)
    ensures
        ({
            let edges = st.g.out(rid);
            let kept = bound_edges(edges, b).len();
            let drifts = drifted_edges(st.g, edges, b).len();
            let after = merge_edges::reconcile_one(st, b, limits, rid).c;
            &&& st.c.checked + edges.len() <= usize::MAX ==> after.checked == st.c.checked + edges.len()
            &&& st.c.dangling + edges.len() - kept <= usize::MAX ==> after.dangling == st.c.dangling
                + edges.len() - kept
            &&& st.c.reresolved + drifts <= usize::MAX ==> after.reresolved == st.c.reresolved + drifts
            &&& after.drifts.len() == st.c.drifts.len() + drifts
        }),
{
    lemma_swept(st.c, st.g, b, rid, st.g.out(rid));
}

/// How many edges are of a type.
pub proof fn law_edges_of_a_type(edges: Seq<GraphEdge>, ty: EdgeType)
    ensures
        cardinality::edges_of_type(edges, ty) == edges.filter(|e: GraphEdge| e.ty == ty).len(),
    decreases edges.len(),
{
    reveal(Seq::filter);
    if edges.len() > 0 {
        law_edges_of_a_type(edges.drop_last(), ty);
    }
}

/// A bound that edges break.
pub open spec fn breaks(edges: Seq<GraphEdge>, l: EdgeLimit) -> bool {
    let n = edges.filter(|e: GraphEdge| e.ty == l.ty).len();
    n < l.min || n > l.max
}

/// The first bound that edges break is told, with what it asks and how many there are; nothing is told
/// where they keep them all.
pub proof fn law_first_broken_bound(edges: Seq<GraphEdge>, limits: Seq<EdgeLimit>, k: int)
    ensures
        cardinality::first_violation(edges, limits) is None <==> forall|i: int|
            0 <= i < limits.len() ==> !breaks(edges, #[trigger] limits[i]),
        0 <= k < limits.len() && breaks(edges, limits[k]) && (forall|i: int|
            0 <= i < k ==> !breaks(edges, #[trigger] limits[i])) ==> cardinality::first_violation(
            edges,
            limits,
        ) == Some(
            CardinalityViolation {
                ty: limits[k].ty,
                count: edges.filter(|e: GraphEdge| e.ty == limits[k].ty).len() as usize,
                min: limits[k].min,
                max: limits[k].max,
            },
        ),
    decreases limits.len(),
{
    if limits.len() > 0 {
        let rest = limits.skip(1);
        law_first_broken_bound(edges, rest, k - 1);
        law_edges_of_a_type(edges, limits[0].ty);
        assert forall|i: int| 0 <= i < rest.len() implies #[trigger] rest[i] == limits[i + 1] by {}
        if breaks(edges, limits[0]) {
            assert(!cardinality::keeps(edges, limits[0]));
            if k > 0 && (forall|i: int| 0 <= i < k ==> !breaks(edges, #[trigger] limits[i])) {
                assert(!breaks(edges, limits[0]));
            }
        } else {
            assert(cardinality::keeps(edges, limits[0]));
            if forall|i: int| 0 <= i < rest.len() ==> !breaks(edges, #[trigger] rest[i]) {
                assert forall|i: int| 0 <= i < limits.len() implies !breaks(edges, #[trigger] limits[i]) by {
                    if i > 0 {
                        assert(limits[i] == rest[i - 1]);
                    }
                }
            }
            if forall|i: int| 0 <= i < limits.len() ==> !breaks(edges, #[trigger] limits[i]) {
                assert forall|i: int| 0 <= i < rest.len() implies !breaks(edges, #[trigger] rest[i]) by {
                    assert(rest[i] == limits[i + 1]);
                }
            }
            if 0 < k < limits.len() && (forall|i: int| 0 <= i < k ==> !breaks(edges, #[trigger] limits[i])) {
                assert forall|i: int| 0 <= i < k - 1 implies !breaks(edges, #[trigger] rest[i]) by {
                    assert(rest[i] == limits[i + 1]);
                }
            }
        }
    }
}

/// A promoted revision is reported once if its edges break a bound, and not at all if they keep them.
pub proof fn law_broken_bounds_are_reported(
    st: EdgeState,
    b: Map<IdentityId, NodeRevisionId>,
    limits: Seq<EdgeLimit>,
    rid: NodeRevisionId,
)
    ensures
        ({
            let after = merge_edges::reconcile_one(st, b, limits, rid);
            let broken = exists|i: int| 0 <= i < limits.len() && breaks(after.g.out(rid), #[trigger] limits[i]);
            &&& broken ==> after.c.violations.len() == st.c.violations.len() + 1
            &&& !broken ==> after.c.violations == st.c.violations
        }),
{
    lemma_swept(st.c, st.g, b, rid, st.g.out(rid));
    let after = merge_edges::reconcile_one(st, b, limits, rid);
    law_first_broken_bound(after.g.out(rid), limits, 0);
}

/// A revision whose edges were built anew has the new edges and, behind them, the edges that tell what it
/// was renamed from.
pub proof fn law_rebuilt_edges(st: EdgeState, rid: NodeRevisionId, edges: Seq<GraphEdge>, e: GraphEdge)
    requires
        st.g.rev(rid) is Some,
    ensures
        ({
            let after = merge_edges::regen_one(st, (rid, edges));
            &&& after.g.out(rid).contains(e) <==> edges.contains(e) || st.g.out(rid).contains(e) && e.ty
                == EdgeType::RenamedFrom
            &&& st.c.regenerated < usize::MAX ==> after.c.regenerated == st.c.regenerated + 1
            &&& forall|other: NodeRevisionId| other != rid ==> #[trigger] after.g.out(other) == st.g.out(other)
        }),
{
    let kept = merge_edges::rename_edges(st.g.out(rid));
    tree_laws::lemma_both(edges, kept, e);
    lemma_kept_by(st.g.out(rid), |f: GraphEdge| f.ty == EdgeType::RenamedFrom, e);
}

proof fn lemma_kept_by<A>(s: Seq<A>, p: spec_fn(A) -> bool, x: A)
    ensures
        s.filter(p).contains(x) <==> s.contains(x) && p(x),
    decreases s.len(),
{
    reveal(Seq::filter);
    if s.len() > 0 {
        let front = s.drop_last();
        lemma_kept_by(front, p, x);
        tree_laws::lemma_ends(s, x);
        if p(s.last()) {
            tree_laws::lemma_ends(front.filter(p).push(s.last()), x);
            assert(front.filter(p).push(s.last()).drop_last() =~= front.filter(p));
        }
    }
}

/// The class that was found for an identity, where each has one: the one that is on the list.
pub proof fn law_class_on_the_list(classified: Seq<ClassifiedView>, i: IdentityId, k: int)
    ensures
        0 <= k < classified.len() && classified[k].identity == i && (forall|j: int|
            k < j < classified.len() ==> (#[trigger] classified[j]).identity != i) ==> merge_edges::class_in(
            classified,
            i,
        ) == Some(classified[k].class),
        (forall|j: int| 0 <= j < classified.len() ==> (#[trigger] classified[j]).identity != i)
            ==> merge_edges::class_in(classified, i) is None,
    decreases classified.len(),
{
    if classified.len() > 0 {
        let front = classified.drop_last();
        law_class_on_the_list(front, i, k);
        assert forall|j: int| 0 <= j < front.len() implies #[trigger] front[j] == classified[j] by {}
        assert(classified[classified.len() - 1] == classified.last());
    }
}

/// The edges of a promoted revision have to be built anew: its file can be read for symbols, and either
/// the merge did not leave its identity as it was, or it stands on another branch.
pub open spec fn has_to_be_rebuilt(
    g: GraphView,
    classified: Seq<ClassifiedView>,
    target: BranchId,
    p: (IdentityId, NodeRevisionId),
    path: Seq<char>,
) -> bool {
    &&& g.rev(p.1) is Some && g.rev(p.1)->0.file_path == path && path.len() > 0
    &&& text::finishes_with(path, ".py"@) || text::finishes_with(path, ".ts"@) || text::finishes_with(
        path,
        ".tsx"@,
    ) || text::finishes_with(path, ".rs"@)
    &&& {
        ||| g.rev(p.1)->0.branch_id != target
        ||| merge_edges::class_in(classified, p.0) is None
        ||| merge_edges::class_in(classified, p.0) != Some(MergeIdentityClass::Clean)
            && merge_edges::class_in(classified, p.0) != Some(MergeIdentityClass::BothDeleted)
    }
}

/// The files whose edges are built anew are just those that hold a promoted revision that needs it, each
/// once.
pub proof fn law_rebuilt_files(
    g: GraphView,
    classified: Seq<ClassifiedView>,
    target: BranchId,
    promoted: Seq<(IdentityId, NodeRevisionId)>,
    path: Seq<char>,
)
    ensures
        merge_edges::regen_files(g, classified, target, promoted).contains(path) <==> exists|i: int|
            0 <= i < promoted.len() && has_to_be_rebuilt(g, classified, target, #[trigger] promoted[i], path),
        merge_edges::regen_files(g, classified, target, promoted).no_duplicates(),
    decreases promoted.len(),
{
    if promoted.len() > 0 {
        let front = promoted.drop_last();
        let a = merge_edges::regen_files(g, classified, target, front);
        let p = promoted.last();
        law_rebuilt_files(g, classified, target, front, path);
        assert forall|i: int| 0 <= i < front.len() implies #[trigger] front[i] == promoted[i] by {}
        assert(promoted[promoted.len() - 1] == p);
        assert(has_to_be_rebuilt(g, classified, target, p, path) <==> merge_edges::regen_file(
            g,
            classified,
            target,
            p,
        ) == Some(path));
        if exists|i: int|
            0 <= i < promoted.len() && has_to_be_rebuilt(g, classified, target, #[trigger] promoted[i], path) {
            let i = choose|i: int|
                0 <= i < promoted.len() && has_to_be_rebuilt(g, classified, target, #[trigger] promoted[i], path);
            if i < front.len() {
                assert(has_to_be_rebuilt(g, classified, target, front[i], path));
            }
        }
        if exists|i: int|
            0 <= i < front.len() && has_to_be_rebuilt(g, classified, target, #[trigger] front[i], path) {
            let i = choose|i: int|
                0 <= i < front.len() && has_to_be_rebuilt(g, classified, target, #[trigger] front[i], path);
            assert(has_to_be_rebuilt(g, classified, target, promoted[i], path));
        }
        if let Some(q) = merge_edges::regen_file(g, classified, target, p) {
            if !a.contains(q) {
                assert(a.push(q) =~= a + seq![q]);
                tree_laws::lemma_both(a, seq![q], path);
                tree_laws::lemma_one(q, path);
                assert(a.push(q).no_duplicates()) by {
                    assert forall|i: int, j: int| 0 <= i < j < a.push(q).len() implies a.push(q)[i]
                        != a.push(q)[j] by {
                        if j == a.len() {
                            assert(a.contains(a[i]));
                        }
                    }
                }
            }
        }
    }
}

/// Where no file was read at all, the promoted revisions that stand on another branch are left to be
/// built anew, and no edge is touched before the edges are put right.
pub proof fn law_left_to_be_rebuilt(
    g: GraphView,
    target: BranchId,
    promoted: Seq<(IdentityId, NodeRevisionId)>,
    classified: Seq<ClassifiedView>,
    rid: NodeRevisionId,
)
    ensures
        merge_edges::rebuilt(g, None, target, promoted, classified).g == g,
        merge_edges::rebuilt(g, None, target, promoted, classified).c.needs_regen.contains(rid) <==> exists|
            i: int,
        |
            0 <= i < promoted.len() && (#[trigger] promoted[i]).1 == rid && g.rev(rid) is Some && g.rev(
                rid,
            )->0.branch_id != target,
{
    lemma_foreign(g, target, promoted, rid);
}

proof fn lemma_foreign(
    g: GraphView,
    target: BranchId,
    promoted: Seq<(IdentityId, NodeRevisionId)>,
    rid: NodeRevisionId,
)
    ensures
        merge_edges::foreign(g, target, promoted).contains(rid) <==> exists|i: int|
            0 <= i < promoted.len() && (#[trigger] promoted[i]).1 == rid && g.rev(rid) is Some && g.rev(
                rid,
            )->0.branch_id != target,
    decreases promoted.len(),
{
    if promoted.len() > 0 {
        let front = promoted.drop_last();
        let a = merge_edges::foreign(g, target, front);
        let p = promoted.last();
        lemma_foreign(g, target, front, rid);
        assert forall|i: int| 0 <= i < front.len() implies #[trigger] front[i] == promoted[i] by {}
        assert(promoted[promoted.len() - 1] == p);
        assert(a.push(p.1) =~= a + seq![p.1]);
        tree_laws::lemma_both(a, seq![p.1], rid);
        tree_laws::lemma_one(p.1, rid);
        if a.contains(rid) {
            let i = choose|i: int|
                0 <= i < front.len() && (#[trigger] front[i]).1 == rid && g.rev(rid) is Some && g.rev(
                    rid,
                )->0.branch_id != target;
            assert(promoted[i].1 == rid);
        }
        if exists|i: int|
            0 <= i < promoted.len() && (#[trigger] promoted[i]).1 == rid && g.rev(rid) is Some && g.rev(
                rid,
            )->0.branch_id != target {
            let i = choose|i: int|
                0 <= i < promoted.len() && (#[trigger] promoted[i]).1 == rid && g.rev(rid) is Some && g.rev(
                    rid,
                )->0.branch_id != target;
            if i < front.len() {
                assert(front[i].1 == rid);
            }
        }
    }
}

} // verus!
