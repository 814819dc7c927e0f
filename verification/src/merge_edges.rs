//! The third phase of a merge: the edges of promoted revisions are rebuilt and put right.

use crate::bindings;
use crate::bindings::scan_branch_bindings;
use crate::cardinality;
use crate::cardinality::{EdgeLimit, describe_violation, validate_edge_cardinality};
use crate::graph;
use crate::graph::{
    EdgeResolution, EdgeType, GraphEdge, GraphView, InMemoryGraph, RevisionView, copy_edges,
    same_edges,
};
use crate::ids::{BranchId, IdentityId, NodeRevisionId, same_bytes32};
use crate::kv::MemoryKv;
use crate::language;
use crate::language::has_indexer;
use crate::merge_classify;
use crate::merge_classify::{ClassifiedMergeIdentity, ClassifiedView, MergeIdentityClass};
use crate::merge_saga_batch;
use crate::merge_saga_batch::{BatchView, SagaEdgeBatch};
use crate::seqs;
use crate::table::Table;
use crate::text;
use crate::text::{append_text, chars_of, owned, same_text, texts_contain};
use vstd::prelude::*;

verus! {

/// What the third phase did.
#[derive(Debug, Clone, Default)]
pub struct PhaseCResult {
    pub dangling_edges_removed: usize,
    pub signature_drifts: Vec<String>,
    pub signature_reresolved: usize,
    pub cardinality_violations: Vec<String>,
    pub edges_checked: usize,
    /// Revisions whose edges were rebuilt from their files.
    pub edges_regenerated: usize,
    /// Revisions whose edges could not be rebuilt.
    pub needs_edge_regen: Vec<NodeRevisionId>,
    /// The changes made, so that they can be undone.
    pub saga_batches: Vec<SagaEdgeBatch>,
}

/// What the third phase holds.
#[verifier::ext_equal]
pub struct PhaseCView {
    pub dangling: usize,
    pub drifts: Seq<Seq<char>>,
    pub reresolved: usize,
    pub violations: Seq<Seq<char>>,
    pub checked: usize,
    pub regenerated: usize,
    pub needs_regen: Seq<NodeRevisionId>,
    pub batches: Seq<BatchView>,
}

impl View for PhaseCResult {
    type V = PhaseCView;

    open spec fn view(&self) -> PhaseCView {
        PhaseCView {
            dangling: self.dangling_edges_removed,
            drifts: text::texts(self.signature_drifts@),
            reresolved: self.signature_reresolved,
            violations: text::texts(self.cardinality_violations@),
            checked: self.edges_checked,
            regenerated: self.edges_regenerated,
            needs_regen: self.needs_edge_regen@,
            batches: merge_saga_batch::batch_views(self.saga_batches@),
        }
    }
}

/// Nothing done yet.
pub open spec fn phase_c_start() -> PhaseCView {
    PhaseCView {
        dangling: 0,
        drifts: Seq::empty(),
        reresolved: 0,
        violations: Seq::empty(),
        checked: 0,
        regenerated: 0,
        needs_regen: Seq::empty(),
        batches: Seq::empty(),
    }
}

impl PhaseCResult {
    /// Nothing done yet.
    pub fn new() -> (r: Self)
        ensures
            r@ == phase_c_start(),
    {
        let r = PhaseCResult {
            dangling_edges_removed: 0,
            signature_drifts: Vec::new(),
            signature_reresolved: 0,
            cardinality_violations: Vec::new(),
            edges_checked: 0,
            edges_regenerated: 0,
            needs_edge_regen: Vec::new(),
            saga_batches: Vec::new(),
        };
        assert(r@ =~= phase_c_start());
        r
    }
}

/// What rebuilding the edges of a file came to.
#[derive(Debug, Clone)]
pub enum RegenOutcome {
    /// The edges of each revision in the file.
    Edges(Vec<(NodeRevisionId, Vec<GraphEdge>)>),
    /// The file could not be read as source.
    Failed,
    /// The file's text is not there.
    NoBody,
}

/// What rebuilding holds.
pub enum RegenView {
    Edges(Seq<(NodeRevisionId, Seq<GraphEdge>)>),
    Failed,
    NoBody,
}

/// The edges that a list holds for each revision.
pub open spec fn edge_lists(v: Seq<(NodeRevisionId, Vec<GraphEdge>)>) -> Seq<
    (NodeRevisionId, Seq<GraphEdge>),
> {
    v.map_values(|x: (NodeRevisionId, Vec<GraphEdge>)| (x.0, x.1@))
}

impl View for RegenOutcome {
    type V = RegenView;

    open spec fn view(&self) -> RegenView {
        match self {
            RegenOutcome::Edges(v) => RegenView::Edges(edge_lists(v@)),
            RegenOutcome::Failed => RegenView::Failed,
            RegenOutcome::NoBody => RegenView::NoBody,
        }
    }
}

/// The graph and what has been done so far.
pub struct EdgeState {
    pub g: GraphView,
    pub c: PhaseCView,
}

/// One more, as far as the counter goes.
pub open spec fn bumped(n: usize) -> usize {
    if n < usize::MAX {
        (n + 1) as usize
    } else {
        n
    }
}

/// Counts one more.
pub fn bump(n: usize) -> (r: usize)
    ensures
        r == bumped(n),
{
    if n < usize::MAX {
        n + 1
    } else {
        n
    }
}

/// The number of the batch behind `n` others.
pub open spec fn batch_seq(n: nat) -> u32 {
    ((n + 1) % 0x1_0000_0000) as u32
}

/// Numbers the batch behind `n` others.
fn next_batch_seq(n: usize) -> (r: u32)
    ensures
        r == batch_seq(n as nat),
{
    let m: u64 = (n as u64) % 0x1_0000_0000;
    if m == 0xffff_ffff {
        assert((n + 1) % 0x1_0000_0000 == 0);
        0
    } else {
        assert((n + 1) % 0x1_0000_0000 == m + 1);
        (m + 1) as u32
    }
}

/// A revision can be given edges: it is there, or has just those.
pub open spec fn recordable(g: GraphView, rid: NodeRevisionId, edges: Seq<GraphEdge>) -> bool {
    g.out(rid) == edges || g.rev(rid) is Some
}

/// A revision is given edges, and the change goes on record; nothing where it has just those, or is
/// not there.
pub open spec fn recorded(st: EdgeState, rid: NodeRevisionId, edges: Seq<GraphEdge>) -> EdgeState {
    if st.g.out(rid) == edges || st.g.rev(rid) is None {
        st
    } else {
        EdgeState {
            g: st.g.with_edges(rid, edges),
            c: PhaseCView {
                batches: st.c.batches.push(
                    BatchView {
                        seq: batch_seq(st.c.batches.len()),
                        target: rid,
                        prior: st.g.out(rid),
                        edges,
                    },
                ),
                ..st.c
            },
        }
    }
}

/// Gives a revision edges and puts the change on record.
fn record_edge_batch(
    graph: &mut InMemoryGraph,
    result: &mut PhaseCResult,
    revision_id: NodeRevisionId,
    new_edges: Vec<GraphEdge>,
) -> (ok: bool)
    ensures
        ok == recordable(old(graph)@, revision_id, new_edges@),
        (EdgeState { g: final(graph)@, c: final(result)@ }) == recorded(
            EdgeState { g: old(graph)@, c: old(result)@ },
            revision_id,
            new_edges@,
        ),
{
    let prior = graph.outbound_edges(revision_id);
    if same_edges(&prior, &new_edges) {
        return true;
    }
    let seq = next_batch_seq(result.saga_batches.len());
    let ghost c0 = result@;
    let edges = copy_edges(&new_edges);
    match graph.replace_edges_for_revision(revision_id, new_edges) {
        Ok(()) => {
            let batch = SagaEdgeBatch {
                seq,
                target_revision_id: revision_id,
                prior_edges: prior,
                edges,
            };
            let ghost bv = batch@;
            result.saga_batches.push(batch);
            proof {
                assert(merge_saga_batch::batch_views(result.saga_batches@) =~= c0.batches.push(bv));
                assert(result@ =~= (PhaseCView { batches: c0.batches.push(bv), ..c0 }));
            }
            true
        },
        Err(_) => false,
    }
}

/// The class of an identity: that of the last entry for it.
pub open spec fn class_in(classified: Seq<ClassifiedView>, i: IdentityId) -> Option<
    MergeIdentityClass,
>
    decreases classified.len(),
{
    if classified.len() == 0 {
        None
    } else if classified.last().identity == i {
        Some(classified.last().class)
    } else {
        class_in(classified.drop_last(), i)
    }
}

/// The file of a promoted revision whose edges have to be rebuilt: its body changed, its class is
/// not known, or it comes from another branch.
pub open spec fn regen_file(
    g: GraphView,
    classified: Seq<ClassifiedView>,
    target: BranchId,
    p: (IdentityId, NodeRevisionId),
) -> Option<Seq<char>> {
    match g.rev(p.1) {
        Some(rev) => {
            let changed = match class_in(classified, p.0) {
                Some(c) => c != MergeIdentityClass::Clean && c != MergeIdentityClass::BothDeleted,
                None => true,
            };
            if (changed || rev.branch_id != target) && rev.file_path.len() > 0 && language::indexable(
                rev.file_path,
            ) {
                Some(rev.file_path)
            } else {
                None
            }
        },
        None => None,
    }
}

/// The files whose edges have to be rebuilt, each once, in the order of the promoted revisions.
pub open spec fn regen_files(
    g: GraphView,
    classified: Seq<ClassifiedView>,
    target: BranchId,
    promoted: Seq<(IdentityId, NodeRevisionId)>,
) -> Seq<Seq<char>>
    decreases promoted.len(),
{
    if promoted.len() == 0 {
        Seq::empty()
    } else {
        let front = regen_files(g, classified, target, promoted.drop_last());
        match regen_file(g, classified, target, promoted.last()) {
            Some(p) => if front.contains(p) {
                front
            } else {
                front.push(p)
            },
            None => front,
        }
    }
}

/// What an optional list of classified identities holds.
pub open spec fn given_classes(classified: Option<&Vec<ClassifiedMergeIdentity>>) -> Seq<
    ClassifiedView,
> {
    match classified {
        Some(v) => merge_classify::classified_views(v@),
        None => Seq::empty(),
    }
}

/// Looks up the class of an identity.
fn find_class(classified: Option<&Vec<ClassifiedMergeIdentity>>, i: IdentityId) -> (r: Option<
    MergeIdentityClass,
>)
    ensures
        r == class_in(given_classes(classified), i),
{
    let v = match classified {
        Some(v) => v,
        None => {
            return None;
        },
    };
    let ghost views = merge_classify::classified_views(v@);
    let mut k: usize = v.len();
    assert(views.take(k as int) =~= views);
    while k > 0
        invariant
            k <= v.len(),
            views == merge_classify::classified_views(v@),
            views == given_classes(classified),
            class_in(views.take(k as int), i) == class_in(views, i),
        decreases k,
    {
        let c = &v[k - 1];
        assert(views.take(k as int).last() == c@);
        assert(views.take(k as int).drop_last() =~= views.take(k - 1));
        if c.identity_id == i {
            return Some(c.class);
        }
        k = k - 1;
    }
    None
}

/// The files whose edges have to be rebuilt for a merge.
pub fn files_for_edge_regen(
    graph: &InMemoryGraph,
    classified: Option<&Vec<ClassifiedMergeIdentity>>,
    target_branch: BranchId,
    promoted: &Vec<(IdentityId, NodeRevisionId)>,
) -> (r: Vec<String>)
    ensures
        text::texts(r@) == regen_files(graph@, given_classes(classified), target_branch, promoted@),
{
    let ghost cl = given_classes(classified);
    let mut files: Vec<String> = Vec::new();
    let mut i: usize = 0;
    proof {
        assert(promoted@.take(0) =~= Seq::<(IdentityId, NodeRevisionId)>::empty());
        assert(text::texts(files@) =~= Seq::<Seq<char>>::empty());
    }
    while i < promoted.len()
        invariant
            i <= promoted.len(),
            cl == given_classes(classified),
            text::texts(files@) == regen_files(graph@, cl, target_branch, promoted@.take(i as int)),
        decreases promoted.len() - i,
    {
        let (iid, rid) = promoted[i];
        let ghost before = text::texts(files@);
        proof {
            assert(promoted@.take(i + 1).drop_last() =~= promoted@.take(i as int));
            assert(promoted@.take(i + 1).last() == (iid, rid));
        }
        if let Some(rev) = graph.get_revision(rid) {
            let changed = match find_class(classified, iid) {
                Some(MergeIdentityClass::Clean) => false,
                Some(MergeIdentityClass::BothDeleted) => false,
                _ => true,
            };
            let path = owned(rev.file_path.as_str());
            let len = chars_of(path.as_str()).len();
            if (changed || rev.branch_id != target_branch) && len > 0 && has_indexer(
                path.as_str(),
            ) {
                if !texts_contain(&files, path.as_str()) {
                    let ghost pv = path@;
                    files.push(path);
                    assert(text::texts(files@) =~= before.push(pv));
                }
            }
        }
        i = i + 1;
    }
    assert(promoted@.take(promoted@.len() as int) =~= promoted@);
    files
}

/// The edges that link a revision to what it was renamed from.
pub open spec fn rename_edges(edges: Seq<GraphEdge>) -> Seq<GraphEdge> {
    edges.filter(|e: GraphEdge| e.ty == EdgeType::RenamedFrom)
}

/// A revision is given rebuilt edges; its rename links stay.
pub open spec fn regen_one(st: EdgeState, x: (NodeRevisionId, Seq<GraphEdge>)) -> EdgeState {
    let edges = x.1 + rename_edges(st.g.out(x.0));
    let after = recorded(st, x.0, edges);
    if recordable(st.g, x.0, edges) {
        EdgeState {
            c: PhaseCView { regenerated: bumped(after.c.regenerated), ..after.c },
            ..after
        }
    } else {
        after
    }
}

/// Revisions are given rebuilt edges, in order.
pub open spec fn regen_each(st: EdgeState, xs: Seq<(NodeRevisionId, Seq<GraphEdge>)>) -> EdgeState
    decreases xs.len(),
{
    if xs.len() == 0 {
        st
    } else {
        regen_one(regen_each(st, xs.drop_last()), xs.last())
    }
}

/// The promoted revisions that stand in a file, in order.
pub open spec fn promoted_in_file(
    g: GraphView,
    promoted: Seq<(IdentityId, NodeRevisionId)>,
    path: Seq<char>,
) -> Seq<NodeRevisionId>
    decreases promoted.len(),
{
    if promoted.len() == 0 {
        Seq::empty()
    } else {
        let front = promoted_in_file(g, promoted.drop_last(), path);
        match g.rev(promoted.last().1) {
            Some(rev) => if rev.file_path == path {
                front.push(promoted.last().1)
            } else {
                front
            },
            None => front,
        }
    }
}

/// A revision stands on a branch, in a file.
pub open spec fn stands_in(branch: BranchId, path: Seq<char>) -> spec_fn(RevisionView) -> bool {
    |r: RevisionView| r.branch_id == branch && r.file_path == path
}

/// The first revision that a branch has in a file.
pub open spec fn first_in_file(g: GraphView, branch: BranchId, path: Seq<char>) -> Option<
    RevisionView,
> {
    seqs::first_such(g.revisions, stands_in(branch, path))
}

/// What the outcomes say of a file: the first that is for it.
pub open spec fn outcome_for(outcomes: Seq<(String, RegenOutcome)>, path: Seq<char>) -> RegenView
    decreases outcomes.len(),
{
    if outcomes.len() == 0 {
        RegenView::NoBody
    } else if outcomes[0].0@ == path {
        outcomes[0].1@
    } else {
        outcome_for(outcomes.skip(1), path)
    }
}

/// The edges of one file are rebuilt.
pub open spec fn regen_in_file(
    st: EdgeState,
    target: BranchId,
    promoted: Seq<(IdentityId, NodeRevisionId)>,
    path: Seq<char>,
    outcome: RegenView,
) -> EdgeState {
    match outcome {
        RegenView::Edges(xs) => regen_each(st, xs),
        RegenView::Failed => match first_in_file(st.g, target, path) {
            Some(rev) => EdgeState {
                c: PhaseCView { needs_regen: st.c.needs_regen.push(rev.revision_id), ..st.c },
                ..st
            },
            None => st,
        },
        RegenView::NoBody => EdgeState {
            c: PhaseCView {
                needs_regen: st.c.needs_regen + promoted_in_file(st.g, promoted, path),
                ..st.c
            },
            ..st
        },
    }
}

/// The edges of files are rebuilt, in order.
pub open spec fn regen_in_files(
    st: EdgeState,
    target: BranchId,
    promoted: Seq<(IdentityId, NodeRevisionId)>,
    files: Seq<Seq<char>>,
    outcomes: Seq<(String, RegenOutcome)>,
) -> EdgeState
    decreases files.len(),
{
    if files.len() == 0 {
        st
    } else {
        regen_in_file(
            regen_in_files(st, target, promoted, files.drop_last(), outcomes),
            target,
            promoted,
            files.last(),
            outcome_for(outcomes, files.last()),
        )
    }
}

/// The promoted revisions that another branch made, in order.
pub open spec fn foreign(
    g: GraphView,
    target: BranchId,
    promoted: Seq<(IdentityId, NodeRevisionId)>,
) -> Seq<NodeRevisionId>
    decreases promoted.len(),
{
    if promoted.len() == 0 {
        Seq::empty()
    } else {
        let front = foreign(g, target, promoted.drop_last());
        match g.rev(promoted.last().1) {
            Some(rev) => if rev.branch_id != target {
                front.push(promoted.last().1)
            } else {
                front
            },
            None => front,
        }
    }
}

/// Looks up what the outcomes say of a file.
fn find_outcome<'a>(outcomes: &'a Vec<(String, RegenOutcome)>, path: &str) -> (r: Option<
    &'a RegenOutcome,
>)
    ensures
        outcome_for(outcomes@, path@) == (match r {
            Some(o) => o@,
            None => RegenView::NoBody,
        }),
{
    let mut i: usize = 0;
    assert(outcomes@.skip(0) =~= outcomes@);
    while i < outcomes.len()
        invariant
            i <= outcomes.len(),
            outcome_for(outcomes@.skip(i as int), path@) == outcome_for(outcomes@, path@),
        decreases outcomes.len() - i,
    {
        assert(outcomes@.skip(i as int)[0] == outcomes@[i as int]);
        assert(outcomes@.skip(i as int).skip(1) =~= outcomes@.skip(i + 1));
        if same_text(outcomes[i].0.as_str(), path) {
            return Some(&outcomes[i].1);
        }
        i = i + 1;
    }
    None
}

/// Gives revisions rebuilt edges.
fn regenerate_each(
    graph: &mut InMemoryGraph,
    result: &mut PhaseCResult,
    xs: &Vec<(NodeRevisionId, Vec<GraphEdge>)>,
)
    ensures
        (EdgeState { g: final(graph)@, c: final(result)@ }) == regen_each(
            EdgeState { g: old(graph)@, c: old(result)@ },
            edge_lists(xs@),
        ),
{
    let ghost views = edge_lists(xs@);
    let ghost start = EdgeState { g: graph@, c: result@ };
    let mut i: usize = 0;
    assert(views.take(0) =~= Seq::empty());
    while i < xs.len()
        invariant
            i <= xs.len(),
            views == edge_lists(xs@),
            start == (EdgeState { g: old(graph)@, c: old(result)@ }),
            (EdgeState { g: graph@, c: result@ }) == regen_each(start, views.take(i as int)),
        decreases xs.len() - i,
    {
        let rid = xs[i].0;
        let ghost st = EdgeState { g: graph@, c: result@ };
        let mut edges = copy_edges(&xs[i].1);
        let ghost base = edges@;
        let have = graph.outbound_edges(rid);
        let ghost is_rename = |e: GraphEdge| e.ty == EdgeType::RenamedFrom;
        let mut k: usize = 0;
        proof {
            seqs::lemma_filter_ends(have@, is_rename);
            assert(base + have@.take(0).filter(is_rename) =~= base);
        }
        while k < have.len()
            invariant
                k <= have.len(),
                is_rename == (|e: GraphEdge| e.ty == EdgeType::RenamedFrom),
                edges@ == base + have@.take(k as int).filter(is_rename),
            decreases have.len() - k,
        {
            proof {
                seqs::lemma_filter_step(have@, is_rename, k as int);
            }
            let e = have[k];
            if e.ty == EdgeType::RenamedFrom {
                edges.push(e);
            }
            assert(edges@ =~= base + have@.take(k + 1).filter(is_rename));
            k = k + 1;
        }
        let ghost all = edges@;
        proof {
            assert(views.take(i + 1).drop_last() =~= views.take(i as int));
            assert(views.take(i + 1).last() == (rid, base));
            assert(all == base + rename_edges(st.g.out(rid)));
        }
        let ok = record_edge_batch(graph, result, rid, edges);
        let ghost c1 = result@;
        if ok {
            result.edges_regenerated = bump(result.edges_regenerated);
            assert(result@ =~= (PhaseCView { regenerated: bumped(c1.regenerated), ..c1 }));
        }
        i = i + 1;
    }
    assert(views.take(views.len() as int) =~= views);
}

/// Finds the first revision that a branch has in a file.
fn find_in_file(graph: &InMemoryGraph, branch: BranchId, path: &str) -> (r: Option<
    NodeRevisionId,
>)
    ensures
        r == (match first_in_file(graph@, branch, path@) {
            Some(rev) => Some(rev.revision_id),
            None => None,
        }),
{
    let revs = graph.revisions();
    let ghost s = graph@.revisions;
    let ghost p = stands_in(branch, path@);
    let mut i: usize = 0;
    while i < revs.len()
        invariant
            i <= revs.len(),
            s == graph::revision_views(revs@),
            s == graph@.revisions,
            p == stands_in(branch, path@),
            forall|j: int| 0 <= j < i ==> !p(#[trigger] s[j]),
        decreases revs.len() - i,
    {
        assert(s[i as int] == revs@[i as int]@);
        if revs[i].branch_id == branch && same_text(revs[i].file_path.as_str(), path) {
            proof {
                seqs::lemma_first_found(s, p, i as int);
            }
            return Some(revs[i].revision_id);
        }
        i = i + 1;
    }
    proof {
        seqs::lemma_first_none(s, p);
    }
    None
}

/// Notes the promoted revisions of a file as in need of edges.
fn note_promoted_in_file(
    graph: &InMemoryGraph,
    result: &mut PhaseCResult,
    promoted: &Vec<(IdentityId, NodeRevisionId)>,
    path: &str,
)
    ensures
        final(result)@ == (PhaseCView {
            needs_regen: old(result)@.needs_regen + promoted_in_file(graph@, promoted@, path@),
            ..old(result)@
        }),
{
    let ghost c0 = result@;
    let mut i: usize = 0;
    proof {
        assert(promoted@.take(0) =~= Seq::<(IdentityId, NodeRevisionId)>::empty());
        assert(c0.needs_regen + Seq::<NodeRevisionId>::empty() =~= c0.needs_regen);
    }
    while i < promoted.len()
        invariant
            i <= promoted.len(),
            c0 == old(result)@,
            result@ == (PhaseCView {
                needs_regen: c0.needs_regen + promoted_in_file(
                    graph@,
                    promoted@.take(i as int),
                    path@,
                ),
                ..c0
            }),
        decreases promoted.len() - i,
    {
        let rid = promoted[i].1;
        proof {
            assert(promoted@.take(i + 1).drop_last() =~= promoted@.take(i as int));
            assert(promoted@.take(i + 1).last() == promoted@[i as int]);
        }
        let ghost before = promoted_in_file(graph@, promoted@.take(i as int), path@);
        if let Some(rev) = graph.get_revision(rid) {
            if same_text(rev.file_path.as_str(), path) {
                result.needs_edge_regen.push(rid);
                assert(c0.needs_regen + before.push(rid) =~= (c0.needs_regen + before).push(rid));
            }
        }
        i = i + 1;
    }
    assert(promoted@.take(promoted@.len() as int) =~= promoted@);
}

/// Rebuilds the edges of files.
fn regenerate_files(
    graph: &mut InMemoryGraph,
    result: &mut PhaseCResult,
    target: BranchId,
    promoted: &Vec<(IdentityId, NodeRevisionId)>,
    files: &Vec<String>,
    outcomes: &Vec<(String, RegenOutcome)>,
)
    ensures
        (EdgeState { g: final(graph)@, c: final(result)@ }) == regen_in_files(
            EdgeState { g: old(graph)@, c: old(result)@ },
            target,
            promoted@,
            text::texts(files@),
            outcomes@,
        ),
{
    let ghost names = text::texts(files@);
    let ghost start = EdgeState { g: graph@, c: result@ };
    let mut i: usize = 0;
    assert(names.take(0) =~= Seq::<Seq<char>>::empty());
    while i < files.len()
        invariant
            i <= files.len(),
            names == text::texts(files@),
            start == (EdgeState { g: old(graph)@, c: old(result)@ }),
            (EdgeState { g: graph@, c: result@ }) == regen_in_files(
                start,
                target,
                promoted@,
                names.take(i as int),
                outcomes@,
            ),
        decreases files.len() - i,
    {
        let path = files[i].as_str();
        let ghost st = EdgeState { g: graph@, c: result@ };
        proof {
            assert(names.take(i + 1).drop_last() =~= names.take(i as int));
            assert(names.take(i + 1).last() == path@);
        }
        match find_outcome(outcomes, path) {
            Some(RegenOutcome::Edges(xs)) => {
                regenerate_each(graph, result, xs);
            },
            Some(RegenOutcome::Failed) => {
                if let Some(rid) = find_in_file(graph, target, path) {
                    result.needs_edge_regen.push(rid);
                    assert(result@ =~= (PhaseCView {
                        needs_regen: st.c.needs_regen.push(rid),
                        ..st.c
                    }));
                }
            },
            _ => {
                note_promoted_in_file(graph, result, promoted, path);
            },
        }
        i = i + 1;
    }
    assert(names.take(names.len() as int) =~= names);
}

/// Notes the promoted revisions that another branch made as in need of edges.
fn note_foreign(
    graph: &InMemoryGraph,
    result: &mut PhaseCResult,
    target: BranchId,
    promoted: &Vec<(IdentityId, NodeRevisionId)>,
)
    ensures
        final(result)@ == (PhaseCView {
            needs_regen: old(result)@.needs_regen + foreign(graph@, target, promoted@),
            ..old(result)@
        }),
{
    let ghost c0 = result@;
    let mut i: usize = 0;
    proof {
        assert(promoted@.take(0) =~= Seq::<(IdentityId, NodeRevisionId)>::empty());
        assert(c0.needs_regen + Seq::<NodeRevisionId>::empty() =~= c0.needs_regen);
    }
    while i < promoted.len()
        invariant
            i <= promoted.len(),
            c0 == old(result)@,
            result@ == (PhaseCView {
                needs_regen: c0.needs_regen + foreign(graph@, target, promoted@.take(i as int)),
                ..c0
            }),
        decreases promoted.len() - i,
    {
        let rid = promoted[i].1;
        proof {
            assert(promoted@.take(i + 1).drop_last() =~= promoted@.take(i as int));
            assert(promoted@.take(i + 1).last() == promoted@[i as int]);
        }
        let ghost before = foreign(graph@, target, promoted@.take(i as int));
        if let Some(rev) = graph.get_revision(rid) {
            if rev.branch_id != target {
                result.needs_edge_regen.push(rid);
                assert(c0.needs_regen + before.push(rid) =~= (c0.needs_regen + before).push(rid));
            }
        }
        i = i + 1;
    }
    assert(promoted@.take(promoted@.len() as int) =~= promoted@);
}

/// Every byte is zero.
pub open spec fn all_zero(a: [u8; 32]) -> bool {
    forall|i: int| 0 <= i < 32 ==> #[trigger] a@[i] == 0
}

/// Whether every byte is zero.
fn is_all_zero(a: &[u8; 32]) -> (r: bool)
    ensures
        r == all_zero(*a),
{
    let mut i: usize = 0;
    while i < 32
        invariant
            i <= 32,
            forall|j: int| 0 <= j < i ==> #[trigger] a@[j] == 0,
        decreases 32 - i,
    {
        if a[i] != 0 {
            assert(a@[i as int] != 0);
            return false;
        }
        i = i + 1;
    }
    true
}

/// The revision that an edge's target is bound to, where its signature is not the one that the edge
/// was resolved against.
pub open spec fn drifted(
    g: GraphView,
    b: Map<IdentityId, NodeRevisionId>,
    e: GraphEdge,
) -> Option<RevisionView> {
    if b.contains_key(e.target_identity_id) {
        match g.rev(b[e.target_identity_id]) {
            Some(rev) => if !all_zero(e.resolution.target_signature_hash)
                && e.resolution.target_signature_hash != rev.signature_hash {
                Some(rev)
            } else {
                None
            },
            None => None,
        }
    } else {
        None
    }
}

/// An edge resolved against another signature.
pub open spec fn resolved_again(e: GraphEdge, signature: [u8; 32]) -> GraphEdge {
    GraphEdge {
        resolution: EdgeResolution { target_signature_hash: signature, ..e.resolution },
        ..e
    }
}

/// How a changed signature is reported.
pub open spec fn drift_text(source: Seq<char>, target: Seq<char>) -> Seq<char> {
    source + " -> "@ + target + ": signature changed"@
}

/// The name of a revision, or `none`.
pub open spec fn name_or(g: GraphView, rid: NodeRevisionId, none: Seq<char>) -> Seq<char> {
    match g.rev(rid) {
        Some(rev) => rev.qualified_name,
        None => none,
    }
}

/// The edges of a revision as far as they were looked at.
pub struct EdgeSweep {
    pub kept: Seq<GraphEdge>,
    pub changed: bool,
    pub c: PhaseCView,
}

/// One edge is looked at: it goes if its target is not bound, and is resolved again if its target's
/// signature changed.
pub open spec fn sweep_step(
    sw: EdgeSweep,
    g: GraphView,
    b: Map<IdentityId, NodeRevisionId>,
    rid: NodeRevisionId,
    e: GraphEdge,
) -> EdgeSweep {
    let c1 = PhaseCView { checked: bumped(sw.c.checked), ..sw.c };
    if !b.contains_key(e.target_identity_id) {
        EdgeSweep {
            kept: sw.kept,
            changed: true,
            c: PhaseCView { dangling: bumped(c1.dangling), ..c1 },
        }
    } else {
        match drifted(g, b, e) {
            Some(rev) => EdgeSweep {
                kept: sw.kept.push(resolved_again(e, rev.signature_hash)),
                changed: true,
                c: PhaseCView {
                    drifts: c1.drifts.push(
                        drift_text(name_or(g, rid, Seq::empty()), rev.qualified_name),
                    ),
                    reresolved: bumped(c1.reresolved),
                    ..c1
                },
            },
            None => EdgeSweep { kept: sw.kept.push(e), changed: sw.changed, c: c1 },
        }
    }
}

/// Edges are looked at in order.
pub open spec fn swept_edges(
    c: PhaseCView,
    g: GraphView,
    b: Map<IdentityId, NodeRevisionId>,
    rid: NodeRevisionId,
    edges: Seq<GraphEdge>,
) -> EdgeSweep
    decreases edges.len(),
{
    if edges.len() == 0 {
        EdgeSweep { kept: Seq::empty(), changed: false, c }
    } else {
        sweep_step(swept_edges(c, g, b, rid, edges.drop_last()), g, b, rid, edges.last())
    }
}

/// The edges of one revision are put right, and held to the bounds.
pub open spec fn reconcile_one(
    st: EdgeState,
    b: Map<IdentityId, NodeRevisionId>,
    limits: Seq<EdgeLimit>,
    rid: NodeRevisionId,
) -> EdgeState {
    let sw = swept_edges(st.c, st.g, b, rid, st.g.out(rid));
    let swept = EdgeState { g: st.g, c: sw.c };
    let after = if sw.changed {
        recorded(swept, rid, sw.kept)
    } else {
        swept
    };
    match cardinality::first_violation(after.g.out(rid), limits) {
        Some(v) => EdgeState {
            c: PhaseCView {
                violations: after.c.violations.push(
                    cardinality::violation_text(name_or(after.g, rid, "?"@), v),
                ),
                ..after.c
            },
            ..after
        },
        None => after,
    }
}

/// The edges of promoted revisions are put right, in order.
pub open spec fn reconcile_all(
    st: EdgeState,
    b: Map<IdentityId, NodeRevisionId>,
    limits: Seq<EdgeLimit>,
    promoted: Seq<(IdentityId, NodeRevisionId)>,
) -> EdgeState
    decreases promoted.len(),
{
    if promoted.len() == 0 {
        st
    } else {
        reconcile_one(reconcile_all(st, b, limits, promoted.drop_last()), b, limits, promoted.last().1)
    }
}

/// Reads the name of a revision.
fn read_name(graph: &InMemoryGraph, rid: NodeRevisionId, none: &str) -> (r: String)
    ensures
        r@ == name_or(graph@, rid, none@),
{
    match graph.get_revision(rid) {
        Some(rev) => owned(rev.qualified_name.as_str()),
        None => owned(none),
    }
}

/// Looks at the edges of a revision.
fn sweep_edges(
    graph: &InMemoryGraph,
    result: &mut PhaseCResult,
    bindings: &Table<IdentityId, NodeRevisionId>,
    rid: NodeRevisionId,
    edges: &Vec<GraphEdge>,
) -> (r: (Vec<GraphEdge>, bool))
    ensures
        (EdgeSweep { kept: r.0@, changed: r.1, c: final(result)@ }) == swept_edges(
            old(result)@,
            graph@,
            bindings@,
            rid,
            edges@,
        ),
{
    let ghost c0 = result@;
    let mut kept: Vec<GraphEdge> = Vec::new();
    let mut changed = false;
    let mut i: usize = 0;
    proof {
        assert(edges@.take(0) =~= Seq::<GraphEdge>::empty());
        assert(kept@ =~= Seq::<GraphEdge>::empty());
        reveal_strlit("");
        assert(""@ =~= Seq::<char>::empty());
    }
    while i < edges.len()
        invariant
            i <= edges.len(),
            c0 == old(result)@,
            ""@ == Seq::<char>::empty(),
            (EdgeSweep { kept: kept@, changed, c: result@ }) == swept_edges(
                c0,
                graph@,
                bindings@,
                rid,
                edges@.take(i as int),
            ),
        decreases edges.len() - i,
    {
        let e = edges[i];
        let ghost c1 = result@;
        let ghost sw = EdgeSweep { kept: kept@, changed, c: c1 };
        proof {
            assert(edges@.take(i + 1).drop_last() =~= edges@.take(i as int));
            assert(edges@.take(i + 1).last() == e);
        }
        result.edges_checked = bump(result.edges_checked);
        match bindings.get(&e.target_identity_id) {
            None => {
                result.dangling_edges_removed = bump(result.dangling_edges_removed);
                changed = true;
                assert(result@ =~= sweep_step(sw, graph@, bindings@, rid, e).c);
            },
            Some(target_rev_id) => {
                let mut fixed = e;
                let mut drift = false;
                if let Some(rev) = graph.get_revision(*target_rev_id) {
                    if !is_all_zero(&e.resolution.target_signature_hash) && !same_bytes32(
                        &e.resolution.target_signature_hash,
                        &rev.signature_hash,
                    ) {
                        drift = true;
                        let mut text = read_name(graph, rid, "");
                        append_text(&mut text, " -> ");
                        append_text(&mut text, rev.qualified_name.as_str());
                        append_text(&mut text, ": signature changed");
                        let ghost tv = text@;
                        let ghost d0 = text::texts(result.signature_drifts@);
                        result.signature_drifts.push(text);
                        assert(text::texts(result.signature_drifts@) =~= d0.push(tv));
                        fixed = GraphEdge {
                            resolution: EdgeResolution {
                                target_signature_hash: rev.signature_hash,
                                resolver: e.resolution.resolver,
                                last_validation_ms: e.resolution.last_validation_ms,
                            },
                            edge_id: e.edge_id,
                            ty: e.ty,
                            source_revision_id: e.source_revision_id,
                            target_identity_id: e.target_identity_id,
                            anchor: e.anchor,
                        };
                    }
                }
                if drift {
                    result.signature_reresolved = bump(result.signature_reresolved);
                    changed = true;
                }
                kept.push(fixed);
                assert(result@ =~= sweep_step(sw, graph@, bindings@, rid, e).c);
            },
        }
        i = i + 1;
    }
    assert(edges@.take(edges@.len() as int) =~= edges@);
    (kept, changed)
}

/// Puts the edges of promoted revisions right.
fn reconcile_promoted(
    graph: &mut InMemoryGraph,
    result: &mut PhaseCResult,
    bindings: &Table<IdentityId, NodeRevisionId>,
    limits: &Vec<EdgeLimit>,
    promoted: &Vec<(IdentityId, NodeRevisionId)>,
)
    ensures
        (EdgeState { g: final(graph)@, c: final(result)@ }) == reconcile_all(
            EdgeState { g: old(graph)@, c: old(result)@ },
            bindings@,
            limits@,
            promoted@,
        ),
{
    let ghost start = EdgeState { g: graph@, c: result@ };
    let mut i: usize = 0;
    assert(promoted@.take(0) =~= Seq::<(IdentityId, NodeRevisionId)>::empty());
    while i < promoted.len()
        invariant
            i <= promoted.len(),
            start == (EdgeState { g: old(graph)@, c: old(result)@ }),
            (EdgeState { g: graph@, c: result@ }) == reconcile_all(
                start,
                bindings@,
                limits@,
                promoted@.take(i as int),
            ),
        decreases promoted.len() - i,
    {
        let rid = promoted[i].1;
        proof {
            assert(promoted@.take(i + 1).drop_last() =~= promoted@.take(i as int));
            assert(promoted@.take(i + 1).last() == promoted@[i as int]);
        }
        let edges = graph.outbound_edges(rid);
        let (kept, changed) = sweep_edges(graph, result, bindings, rid, &edges);
        if changed {
            let _ = record_edge_batch(graph, result, rid, kept);
        }
        let now = graph.outbound_edges(rid);
        let ghost c2 = result@;
        if let Err(v) = validate_edge_cardinality(&now, limits) {
            let text = describe_violation(read_name(graph, rid, "?").as_str(), &v);
            let ghost tv = text@;
            result.cardinality_violations.push(text);
            proof {
                assert(text::texts(result.cardinality_violations@) =~= c2.violations.push(tv));
                assert(result@ =~= (PhaseCView { violations: c2.violations.push(tv), ..c2 }));
            }
        }
        i = i + 1;
    }
    assert(promoted@.take(promoted@.len() as int) =~= promoted@);
}

/// The graph and the account after the edges of promoted revisions were rebuilt, where outcomes are
/// given, or noted as missing.
pub open spec fn rebuilt(
    g: GraphView,
    outcomes: Option<Seq<(String, RegenOutcome)>>,
    target: BranchId,
    promoted: Seq<(IdentityId, NodeRevisionId)>,
    classified: Seq<ClassifiedView>,
) -> EdgeState {
    let start = EdgeState { g, c: phase_c_start() };
    match outcomes {
        Some(o) => regen_in_files(
            start,
            target,
            promoted,
            regen_files(g, classified, target, promoted),
            o,
        ),
        None => EdgeState {
            c: PhaseCView { needs_regen: foreign(g, target, promoted), ..phase_c_start() },
            ..start
        },
    }
}

/// What the third phase comes to.
pub open spec fn phase_c(
    g: GraphView,
    m: Map<Seq<char>, Seq<u8>>,
    outcomes: Option<Seq<(String, RegenOutcome)>>,
    target: BranchId,
    promoted: Seq<(IdentityId, NodeRevisionId)>,
    classified: Seq<ClassifiedView>,
    limits: Seq<EdgeLimit>,
    after: EdgeState,
) -> bool {
    exists|b: Map<IdentityId, NodeRevisionId>| #[trigger]
        bindings::branch_binds(m, target, b) && after == reconcile_all(
            rebuilt(g, outcomes, target, promoted, classified),
            b,
            limits,
            promoted,
        )
}

/// What optional outcomes hold.
pub open spec fn given_outcomes(outcomes: Option<&Vec<(String, RegenOutcome)>>) -> Option<
    Seq<(String, RegenOutcome)>,
> {
    match outcomes {
        Some(v) => Some(v@),
        None => None,
    }
}

/// Puts the edges of promoted revisions right, with the outcomes of rebuilding edges from files.
pub fn phase_c_reconcile_edges_full(
    graph: &mut InMemoryGraph,
    kv: &MemoryKv,
    outcomes: Option<&Vec<(String, RegenOutcome)>>,
    target_branch: BranchId,
    promoted: &Vec<(IdentityId, NodeRevisionId)>,
    classified: Option<&Vec<ClassifiedMergeIdentity>>,
    limits: &Vec<EdgeLimit>,
) -> (r: PhaseCResult)
    ensures
        phase_c(
            old(graph)@,
            kv@,
            given_outcomes(outcomes),
            target_branch,
            promoted@,
            given_classes(classified),
            limits@,
            EdgeState { g: final(graph)@, c: r@ },
        ),
{
    let mut result = PhaseCResult::new();
    let ghost g0 = graph@;
    match outcomes {
        Some(o) => {
            let files = files_for_edge_regen(graph, classified, target_branch, promoted);
            regenerate_files(graph, &mut result, target_branch, promoted, &files, o);
        },
        None => {
            note_foreign(graph, &mut result, target_branch, promoted);
            proof {
                let f = foreign(g0, target_branch, promoted@);
                assert(phase_c_start().needs_regen + f =~= f);
            }
        },
    }
    let bindings = scan_branch_bindings(kv, target_branch);
    reconcile_promoted(graph, &mut result, &bindings, limits, promoted);
    result
}

/// Puts the edges of promoted revisions right, without rebuilding any.
pub fn phase_c_reconcile_edges(
    graph: &mut InMemoryGraph,
    kv: &MemoryKv,
    target_branch: BranchId,
    promoted: &Vec<(IdentityId, NodeRevisionId)>,
    limits: &Vec<EdgeLimit>,
) -> (r: PhaseCResult)
    ensures
        phase_c(
            old(graph)@,
            kv@,
            None,
            target_branch,
            promoted@,
            Seq::empty(),
            limits@,
            EdgeState { g: final(graph)@, c: r@ },
        ),
{
    phase_c_reconcile_edges_full(graph, kv, None, target_branch, promoted, None, limits)
}

/// The batches on record lead from `g0` to the present graph, and each tells what was there before.
pub open spec fn traced(g0: GraphView, st: EdgeState) -> bool {
    st.g == merge_saga_batch::all_applied(g0, st.c.batches) && merge_saga_batch::priors_true(g0, st.c.batches)
}

/// Recording a change keeps the trace.
proof fn lemma_recorded_traced(
    g0: GraphView,
    st: EdgeState,
    rid: NodeRevisionId,
    edges: Seq<GraphEdge>,
)
    requires
        traced(g0, st),
    ensures
        traced(g0, recorded(st, rid, edges)),
{
    let after = recorded(st, rid, edges);
    if !(st.g.out(rid) == edges || st.g.rev(rid) is None) {
        let s = st.c.batches;
        let t = after.c.batches;
        assert(t.drop_last() =~= s);
        merge_saga_batch::lemma_applied_keeps_revisions(g0, s);
        assert(g0.rev(rid) == st.g.rev(rid));
        assert forall|i: int| 0 <= i < t.len() implies (#[trigger] t[i]).prior == merge_saga_batch::all_applied(
            g0,
            t.take(i),
        ).out(t[i].target) && g0.rev(t[i].target) is Some by {
            if i < s.len() {
                assert(t[i] == s[i]);
                assert(t.take(i) =~= s.take(i));
            } else {
                assert(t.take(i) =~= s);
            }
        }
    }
}

/// Giving revisions rebuilt edges keeps the trace.
proof fn lemma_regen_each_traced(
    g0: GraphView,
    st: EdgeState,
    xs: Seq<(NodeRevisionId, Seq<GraphEdge>)>,
)
    requires
        traced(g0, st),
    ensures
        traced(g0, regen_each(st, xs)),
    decreases xs.len(),
{
    if xs.len() > 0 {
        lemma_regen_each_traced(g0, st, xs.drop_last());
        let before = regen_each(st, xs.drop_last());
        let x = xs.last();
        lemma_recorded_traced(g0, before, x.0, x.1 + rename_edges(before.g.out(x.0)));
    }
}

/// Rebuilding the edges of files keeps the trace.
proof fn lemma_regen_traced(
    g0: GraphView,
    st: EdgeState,
    target: BranchId,
    promoted: Seq<(IdentityId, NodeRevisionId)>,
    files: Seq<Seq<char>>,
    outcomes: Seq<(String, RegenOutcome)>,
)
    requires
        traced(g0, st),
    ensures
        traced(g0, regen_in_files(st, target, promoted, files, outcomes)),
    decreases files.len(),
{
    if files.len() > 0 {
        lemma_regen_traced(g0, st, target, promoted, files.drop_last(), outcomes);
        let before = regen_in_files(st, target, promoted, files.drop_last(), outcomes);
        if let RegenView::Edges(xs) = outcome_for(outcomes, files.last()) {
            lemma_regen_each_traced(g0, before, xs);
        }
    }
}

/// Looking at edges changes no batch.
proof fn lemma_sweep_keeps_batches(
    c: PhaseCView,
    g: GraphView,
    b: Map<IdentityId, NodeRevisionId>,
    rid: NodeRevisionId,
    edges: Seq<GraphEdge>,
)
    ensures
        swept_edges(c, g, b, rid, edges).c.batches == c.batches,
    decreases edges.len(),
{
    if edges.len() > 0 {
        lemma_sweep_keeps_batches(c, g, b, rid, edges.drop_last());
    }
}

/// Putting edges right keeps the trace.
proof fn lemma_reconcile_traced(
    g0: GraphView,
    st: EdgeState,
    b: Map<IdentityId, NodeRevisionId>,
    limits: Seq<EdgeLimit>,
    promoted: Seq<(IdentityId, NodeRevisionId)>,
)
    requires
        traced(g0, st),
    ensures
        traced(g0, reconcile_all(st, b, limits, promoted)),
    decreases promoted.len(),
{
    if promoted.len() > 0 {
        lemma_reconcile_traced(g0, st, b, limits, promoted.drop_last());
        let before = reconcile_all(st, b, limits, promoted.drop_last());
        let rid = promoted.last().1;
        lemma_sweep_keeps_batches(before.c, before.g, b, rid, before.g.out(rid));
        let sw = swept_edges(before.c, before.g, b, rid, before.g.out(rid));
        lemma_recorded_traced(g0, EdgeState { g: before.g, c: sw.c }, rid, sw.kept);
    }
}

/// Undoing the batches that the third phase put on record gives every revision back the edges it
/// had before that phase.
pub proof fn law_third_phase_can_be_undone(
    g: GraphView,
    m: Map<Seq<char>, Seq<u8>>,
    outcomes: Option<Seq<(String, RegenOutcome)>>,
    target: BranchId,
    promoted: Seq<(IdentityId, NodeRevisionId)>,
    classified: Seq<ClassifiedView>,
    limits: Seq<EdgeLimit>,
    after: EdgeState,
    rid: NodeRevisionId,
)
    requires
        phase_c(g, m, outcomes, target, promoted, classified, limits, after),
    ensures
        merge_saga_batch::compensated(after.g, after.c.batches).out(rid) == g.out(rid),
        merge_saga_batch::compensated(after.g, after.c.batches).revisions == g.revisions,
{
    let b = choose|b: Map<IdentityId, NodeRevisionId>| #[trigger]
        bindings::branch_binds(m, target, b) && after == reconcile_all(
            rebuilt(g, outcomes, target, promoted, classified),
            b,
            limits,
            promoted,
        );
    let start = EdgeState { g, c: phase_c_start() };
    assert(traced(g, start));
    let mid = rebuilt(g, outcomes, target, promoted, classified);
    if let Some(o) = outcomes {
        lemma_regen_traced(
            g,
            start,
            target,
            promoted,
            regen_files(g, classified, target, promoted),
            o,
        );
    }
    assert(traced(g, mid));
    lemma_reconcile_traced(g, mid, b, limits, promoted);
    merge_saga_batch::law_compensation_undoes(g, after.c.batches, rid);
}

/// Every edge leads to an identity that is bound.
pub open spec fn no_dangling(edges: Seq<GraphEdge>, b: Map<IdentityId, NodeRevisionId>) -> bool {
    forall|i: int| 0 <= i < edges.len() ==> b.contains_key((#[trigger] edges[i]).target_identity_id)
}

/// The edges that are kept lead to bound identities, and if nothing changed they are all kept.
proof fn lemma_sweep_no_dangling(
    c: PhaseCView,
    g: GraphView,
    b: Map<IdentityId, NodeRevisionId>,
    rid: NodeRevisionId,
    edges: Seq<GraphEdge>,
)
    ensures
        no_dangling(swept_edges(c, g, b, rid, edges).kept, b),
        !swept_edges(c, g, b, rid, edges).changed ==> swept_edges(c, g, b, rid, edges).kept
            == edges,
    decreases edges.len(),
{
    if edges.len() > 0 {
        lemma_sweep_no_dangling(c, g, b, rid, edges.drop_last());
        assert(edges.drop_last().push(edges.last()) =~= edges);
    }
}

/// After the third phase, the edges of every promoted revision that is there lead to identities that
/// the target branch binds.
pub proof fn law_no_dangling_edges_left(
    st: EdgeState,
    b: Map<IdentityId, NodeRevisionId>,
    limits: Seq<EdgeLimit>,
    promoted: Seq<(IdentityId, NodeRevisionId)>,
    k: int,
)
    requires
        0 <= k < promoted.len(),
        st.g.rev(promoted[k].1) is Some,
    ensures
        no_dangling(reconcile_all(st, b, limits, promoted).g.out(promoted[k].1), b),
    decreases promoted.len(),
{
    let front = promoted.drop_last();
    let before = reconcile_all(st, b, limits, front);
    let rid = promoted.last().1;
    let edges = before.g.out(rid);
    lemma_reconcile_keeps_revisions(st, b, limits, front);
    lemma_sweep_no_dangling(before.c, before.g, b, rid, edges);
    let sw = swept_edges(before.c, before.g, b, rid, edges);
    if k < front.len() {
        assert(front[k] == promoted[k]);
        law_no_dangling_edges_left(st, b, limits, front, k);
    }
    assert(before.g.rev(promoted[k].1) == st.g.rev(promoted[k].1));
}

/// Putting edges right leaves the revisions as they are.
proof fn lemma_reconcile_keeps_revisions(
    st: EdgeState,
    b: Map<IdentityId, NodeRevisionId>,
    limits: Seq<EdgeLimit>,
    promoted: Seq<(IdentityId, NodeRevisionId)>,
)
    ensures
        reconcile_all(st, b, limits, promoted).g.revisions == st.g.revisions,
    decreases promoted.len(),
{
    if promoted.len() > 0 {
        lemma_reconcile_keeps_revisions(st, b, limits, promoted.drop_last());
    }
}

} // verus!
