//! Finding what an identity or an edge stands for on a chain of branches, and walking the graph.

use crate::absence;
use crate::absence::DeletionAbsenceStore;
use crate::graph::{
    EdgeType, GraphEdge, GraphView, InMemoryGraph, NodeKind, NodeRevision, RevisionStatus,
    RevisionView, contains_branch, contains_revision, copy_edges,
};
use crate::ids::{BranchId, IdentityId, NodeRevisionId, same_bytes16};
use crate::kv::MemoryKv;
use crate::merge_edges;
use crate::merge_edges::bump;
use crate::overrides;
use crate::overrides::EdgeTargetOverrideStore;
use crate::seqs;
use crate::tracker;
use vstd::prelude::*;

verus! {

/// A type of edge that context follows.
pub open spec fn leads_to_context(ty: EdgeType) -> bool {
    ty == EdgeType::Calls || ty == EdgeType::Imports || ty == EdgeType::Uses || ty
        == EdgeType::Extends
}

/// Whether context follows a type of edge.
fn is_context_edge(ty: EdgeType) -> (r: bool)
    ensures
        r == leads_to_context(ty),
{
    match ty {
        EdgeType::Calls | EdgeType::Imports | EdgeType::Uses | EdgeType::Extends => true,
        _ => false,
    }
}

/// The hub of a file that the ids derived for some branches lead to: the first of these revisions that
/// is there, on whatever branch of the chain.
pub open spec fn hub_by_ids(
    g: GraphView,
    chain: Seq<BranchId>,
    branches: Seq<BranchId>,
    path: Seq<char>,
) -> Option<NodeRevisionId>
    decreases branches.len(),
{
    if branches.len() == 0 {
        None
    } else {
        let behind = hub_by_ids(g, chain, branches.skip(1), path);
        match g.hub_id(branches[0], path) {
            Some(rid) => match g.rev(rid) {
                Some(r) => if chain.contains(r.branch_id) {
                    Some(rid)
                } else {
                    behind
                },
                None => behind,
            },
            None => behind,
        }
    }
}

/// The hub of a file on a chain of branches.
pub open spec fn file_hub(g: GraphView, chain: Seq<BranchId>, path: Seq<char>) -> Option<
    NodeRevisionId,
> {
    hub_by_ids(g, chain, chain, path)
}

/// Finds the hub of a file by the ids that are derived for the branches of a chain, the nearest first.
pub fn file_hub_revision_for_path(g: &InMemoryGraph, chain: &Vec<BranchId>, file_path: &str) -> (r:
    Option<NodeRevisionId>)
    ensures
        r == file_hub(g@, chain@, file_path@),
{
    let mut i: usize = 0;
    assert(chain@.skip(0) =~= chain@);
    while i < chain.len()
        invariant
            i <= chain.len(),
            hub_by_ids(g@, chain@, chain@.skip(i as int), file_path@) == file_hub(
                g@,
                chain@,
                file_path@,
            ),
        decreases chain.len() - i,
    {
        assert(chain@.skip(i as int)[0] == chain@[i as int]);
        assert(chain@.skip(i as int).skip(1) =~= chain@.skip(i + 1));
        if let Some(rid) = g.hub_id(chain[i], file_path) {
            if let Some(r) = g.get_revision(rid) {
                if contains_branch(chain, r.branch_id) {
                    return Some(rid);
                }
            }
        }
        i = i + 1;
    }
    None
}

/// The hub of a file is the revision of an id that is derived for a branch of the chain, and it stands
/// on a branch of the chain; there is none only where no such revision is there.
pub proof fn law_hub_has_a_derived_id(g: GraphView, chain: Seq<BranchId>, path: Seq<char>)
    ensures
        match file_hub(g, chain, path) {
            Some(rid) => g.rev(rid) is Some && chain.contains(g.rev(rid)->0.branch_id) && exists|
                b: BranchId,
            | #[trigger]
                chain.contains(b) && g.hub_id(b, path) == Some(rid),
            None => forall|b: BranchId, rid: NodeRevisionId| #[trigger]
                chain.contains(b) && g.hub_id(b, path) == Some(rid) && #[trigger] g.rev(rid) is Some
                    ==> !chain.contains(g.rev(rid)->0.branch_id),
        },
{
    lemma_hub_by_ids(g, chain, chain, path);
}

/// What looking for a hub by the ids of some branches comes to.
proof fn lemma_hub_by_ids(
    g: GraphView,
    chain: Seq<BranchId>,
    branches: Seq<BranchId>,
    path: Seq<char>,
)
    ensures
        match hub_by_ids(g, chain, branches, path) {
            Some(rid) => g.rev(rid) is Some && chain.contains(g.rev(rid)->0.branch_id) && exists|
                b: BranchId,
            | #[trigger]
                branches.contains(b) && g.hub_id(b, path) == Some(rid),
            None => forall|b: BranchId, rid: NodeRevisionId| #[trigger]
                branches.contains(b) && g.hub_id(b, path) == Some(rid) && #[trigger] g.rev(
                    rid,
                ) is Some ==> !chain.contains(g.rev(rid)->0.branch_id),
        },
    decreases branches.len(),
{
    if branches.len() > 0 {
        let rest = branches.skip(1);
        lemma_hub_by_ids(g, chain, rest, path);
        assert(branches.contains(branches[0]));
        assert forall|b: BranchId| #[trigger] branches.contains(b) <==> b == branches[0]
            || rest.contains(b) by {
            if branches.contains(b) {
                let k = choose|k: int| 0 <= k < branches.len() && branches[k] == b;
                if k > 0 {
                    assert(rest[k - 1] == b);
                }
            }
            if rest.contains(b) {
                let k = choose|k: int| 0 <= k < rest.len() && rest[k] == b;
                assert(branches[k + 1] == b);
            }
        }
        if let Some(rid) = hub_by_ids(g, chain, branches, path) {
            if g.hub_id(branches[0], path) == Some(rid) {
                assert(branches.contains(branches[0]) && g.hub_id(branches[0], path) == Some(rid));
            } else {
                let b = choose|b: BranchId| #[trigger]
                    rest.contains(b) && g.hub_id(b, path) == Some(rid);
                assert(branches.contains(b));
            }
        }
    }
}

/// A revision is the hub of its file.
pub open spec fn is_hub(g: GraphView, rid: NodeRevisionId) -> bool {
    match g.rev(rid) {
        Some(r) => g.kind(r.identity_id) == Some(NodeKind::File),
        None => false,
    }
}

/// The edges of a list that context follows.
pub open spec fn context_among(edges: Seq<GraphEdge>) -> Seq<GraphEdge> {
    edges.filter(|e: GraphEdge| leads_to_context(e.ty))
}

/// The edges of a list that import.
pub open spec fn imports_among(edges: Seq<GraphEdge>) -> Seq<GraphEdge> {
    edges.filter(|e: GraphEdge| e.ty == EdgeType::Imports)
}

/// The imports that a revision has by way of its file.
pub open spec fn hub_imports(g: GraphView, chain: Seq<BranchId>, rid: NodeRevisionId) -> Seq<
    GraphEdge,
> {
    if is_hub(g, rid) {
        Seq::empty()
    } else {
        match g.rev(rid) {
            Some(rev) => match file_hub(g, chain, rev.file_path) {
                Some(h) => imports_among(g.out(h)),
                None => Seq::empty(),
            },
            None => Seq::empty(),
        }
    }
}

/// The edges that context follows from a revision: its own, then the imports of its file.
pub open spec fn context_edges(g: GraphView, chain: Seq<BranchId>, rid: NodeRevisionId) -> Seq<
    GraphEdge,
> {
    context_among(g.out(rid)) + hub_imports(g, chain, rid)
}

/// Whether a revision is the hub of its file.
fn is_file_hub_revision(g: &InMemoryGraph, rid: NodeRevisionId) -> (r: bool)
    ensures
        r == is_hub(g@, rid),
{
    match g.get_revision(rid) {
        Some(rev) => match g.identity_kind(rev.identity_id) {
            Some(NodeKind::File) => true,
            _ => false,
        },
        None => false,
    }
}

/// The edges of a list that context follows.
fn keep_context(edges: &Vec<GraphEdge>) -> (r: Vec<GraphEdge>)
    ensures
        r@ == context_among(edges@),
{
    let ghost p = |e: GraphEdge| leads_to_context(e.ty);
    let mut out: Vec<GraphEdge> = Vec::new();
    let mut i: usize = 0;
    proof {
        seqs::lemma_filter_ends(edges@, p);
    }
    while i < edges.len()
        invariant
            i <= edges.len(),
            p == (|e: GraphEdge| leads_to_context(e.ty)),
            out@ == edges@.take(i as int).filter(p),
        decreases edges.len() - i,
    {
        proof {
            seqs::lemma_filter_step(edges@, p, i as int);
        }
        if is_context_edge(edges[i].ty) {
            out.push(edges[i]);
        }
        i = i + 1;
    }
    proof {
        seqs::lemma_filter_ends(edges@, p);
    }
    out
}

/// The edges of a list that import.
fn keep_imports(edges: &Vec<GraphEdge>) -> (r: Vec<GraphEdge>)
    ensures
        r@ == imports_among(edges@),
{
    let ghost p = |e: GraphEdge| e.ty == EdgeType::Imports;
    let mut out: Vec<GraphEdge> = Vec::new();
    let mut i: usize = 0;
    proof {
        seqs::lemma_filter_ends(edges@, p);
    }
    while i < edges.len()
        invariant
            i <= edges.len(),
            p == (|e: GraphEdge| e.ty == EdgeType::Imports),
            out@ == edges@.take(i as int).filter(p),
        decreases edges.len() - i,
    {
        proof {
            seqs::lemma_filter_step(edges@, p, i as int);
        }
        if edges[i].ty == EdgeType::Imports {
            out.push(edges[i]);
        }
        i = i + 1;
    }
    proof {
        seqs::lemma_filter_ends(edges@, p);
    }
    out
}

/// The edges that context follows from a revision.
pub fn outbound_context_edges(
    g: &InMemoryGraph,
    chain: &Vec<BranchId>,
    source_revision: NodeRevisionId,
) -> (r: Vec<GraphEdge>)
    ensures
        r@ == context_edges(g@, chain@, source_revision),
{
    let mut out = keep_context(&g.outbound_edges(source_revision));
    let ghost own = out@;
    if !is_file_hub_revision(g, source_revision) {
        if let Some(rev) = g.get_revision(source_revision) {
            if let Some(h) = file_hub_revision_for_path(g, chain, rev.file_path.as_str()) {
                let mut more = keep_imports(&g.outbound_edges(h));
                out.append(&mut more);
            }
        }
    }
    assert(out@ =~= own + hub_imports(g@, chain@, source_revision));
    out
}

/// A revision that a walk does not go beyond.
pub open spec fn opaque_gate(g: GraphView, identity: IdentityId) -> bool {
    g.kind(identity) == Some(NodeKind::Stub)
}

/// Whether a walk does not go beyond a revision.
pub fn is_opaque_traversal_gate(g: &InMemoryGraph, rev: &NodeRevision) -> (r: bool)
    ensures
        r == opaque_gate(g@, rev.identity_id),
{
    match g.identity_kind(rev.identity_id) {
        Some(NodeKind::Stub) => true,
        _ => false,
    }
}

/// The identity that a tombstone was renamed to.
pub fn rename_successor_identity(g: &InMemoryGraph, tombstone_revision: NodeRevisionId) -> (r:
    Option<IdentityId>)
    ensures
        r == g@.rename_successor(tombstone_revision),
{
    g.rename_successor(tombstone_revision)
}

/// A status in which a revision is found by queries.
pub open spec fn live(status: RevisionStatus) -> bool {
    status == RevisionStatus::Active || status == RevisionStatus::Speculative
}

/// Whether queries find a revision in a status.
pub fn is_live(status: RevisionStatus) -> (r: bool)
    ensures
        r == live(status),
{
    match status {
        RevisionStatus::Active | RevisionStatus::Speculative => true,
        _ => false,
    }
}

/// What optional marks of deletion hide.
pub open spec fn hidden_by(
    marks: Option<Map<Seq<char>, Seq<u8>>>,
    chain: Seq<BranchId>,
    identity: IdentityId,
) -> bool {
    match marks {
        Some(m) => absence::hidden(m, chain, identity),
        None => false,
    }
}

/// The revision that an identity stands for on a chain: its live one, or, where that is a
/// tombstone, the live one of the identity it was renamed to; none where a branch hides it.
pub open spec fn identity_revision(
    g: GraphView,
    marks: Option<Map<Seq<char>, Seq<u8>>>,
    chain: Seq<BranchId>,
    identity: IdentityId,
) -> Option<RevisionView> {
    if hidden_by(marks, chain, identity) {
        None
    } else {
        match g.primary_in_chain(chain, identity) {
            Some(p) => if live(p.status) {
                Some(p)
            } else if p.status == RevisionStatus::Tombstone {
                match g.rename_successor(p.revision_id) {
                    Some(s) => if hidden_by(marks, chain, s) {
                        None
                    } else {
                        match g.primary_in_chain(chain, s) {
                            Some(q) => if live(q.status) {
                                Some(q)
                            } else {
                                None
                            },
                            None => None,
                        }
                    },
                    None => None,
                }
            } else {
                None
            },
            None => None,
        }
    }
}

/// The store that holds marks of deletion, if they are to be heeded.
pub open spec fn marks_of(absence: Option<&MemoryKv>) -> Option<Map<Seq<char>, Seq<u8>>> {
    match absence {
        Some(kv) => Some(kv@),
        None => None,
    }
}

/// What a found revision holds.
pub open spec fn found(r: Option<&NodeRevision>) -> Option<RevisionView> {
    match r {
        Some(v) => Some(v@),
        None => None,
    }
}

/// Whether marks of deletion hide an identity.
fn is_hidden(absence: Option<&MemoryKv>, chain: &Vec<BranchId>, identity: IdentityId) -> (r: bool)
    ensures
        r == hidden_by(marks_of(absence), chain@, identity),
{
    match absence {
        Some(kv) => DeletionAbsenceStore::new().is_deleted_in_chain(kv, chain, identity),
        None => false,
    }
}

/// Finds the revision that an identity stands for, marks of deletion aside.
pub fn resolve_identity_revision<'a>(
    g: &'a InMemoryGraph,
    chain: &Vec<BranchId>,
    identity_id: IdentityId,
) -> (r: Option<&'a NodeRevision>)
    ensures
        found(r) == identity_revision(g@, None, chain@, identity_id),
{
    resolve_identity_revision_with_absence(g, chain, identity_id, None)
}

/// Finds the revision that an identity stands for.
pub fn resolve_identity_revision_with_absence<'a>(
    g: &'a InMemoryGraph,
    chain: &Vec<BranchId>,
    identity_id: IdentityId,
    absence: Option<&MemoryKv>,
) -> (r: Option<&'a NodeRevision>)
    ensures
        found(r) == identity_revision(g@, marks_of(absence), chain@, identity_id),
{
    if is_hidden(absence, chain, identity_id) {
        return None;
    }
    let primary = match g.primary_revision_for_identity_in_chain(chain, identity_id) {
        Some(p) => p,
        None => {
            return None;
        },
    };
    match primary.status {
        RevisionStatus::Active | RevisionStatus::Speculative => Some(primary),
        RevisionStatus::Tombstone => {
            let successor = match g.rename_successor(primary.revision_id) {
                Some(s) => s,
                None => {
                    return None;
                },
            };
            if is_hidden(absence, chain, successor) {
                return None;
            }
            match g.primary_revision_for_identity_in_chain(chain, successor) {
                Some(q) => if is_live(q.status) {
                    Some(q)
                } else {
                    None
                },
                None => None,
            }
        },
        RevisionStatus::Orphaned => None,
    }
}

/// Where branches up to one have neither a revision that stands for a symbol nor a tombstone of it, and
/// that one has a tombstone that names no successor, the first revision in the chain is a tombstone
/// without successor.
proof fn lemma_chain_stops(g: GraphView, chain: Seq<BranchId>, at: int, iid: IdentityId)
    requires
        0 <= at < chain.len(),
        g.primary(chain[at], iid) is None,
        g.in_status(chain[at], iid, RevisionStatus::Tombstone) is Some,
        forall|i: int|
            0 <= i < at ==> g.primary(#[trigger] chain[i], iid) is None && g.in_status(
                chain[i],
                iid,
                RevisionStatus::Tombstone,
            ) is None,
    ensures
        g.primary_in_chain(chain, iid) matches Some(t) && t.status == RevisionStatus::Tombstone
            && g.rename_successor(t.revision_id) is None,
    decreases at,
{
    if at > 0 {
        let rest = chain.drop_first();
        assert forall|i: int| 0 <= i < at - 1 implies g.primary(#[trigger] rest[i], iid) is None
            && g.in_status(rest[i], iid, RevisionStatus::Tombstone) is None by {
            assert(rest[i] == chain[i + 1]);
        }
        assert(g.primary(chain[0], iid) is None);
        lemma_chain_stops(g, rest, at - 1, iid);
    } else {
        let branch = chain[0];
        seqs::lemma_first_is(
            g.revisions,
            |r: RevisionView|
                r.branch_id == branch && r.identity_id == iid && r.status
                    == RevisionStatus::Tombstone,
        );
        seqs::lemma_first_is(
            g.revisions,
            |r: RevisionView|
                r.branch_id == branch && r.identity_id == iid && r.status
                    == RevisionStatus::Tombstone && g.rename_successor(r.revision_id) is Some,
        );
        let t = g.in_status(branch, iid, RevisionStatus::Tombstone)->0;
        let k = choose|k: int| 0 <= k < g.revisions.len() && g.revisions[k] == t;
        assert(g.bridge(branch, iid) is None);
        assert(g.rename_successor(g.revisions[k].revision_id) is None);
    }
}

/// A symbol that a branch has deleted does not come back through the branches behind it: a tombstone
/// without a successor hides whatever they have, unless a nearer branch has the symbol.
pub proof fn law_nearer_tombstone_hides(
    g: GraphView,
    marks: Option<Map<Seq<char>, Seq<u8>>>,
    chain: Seq<BranchId>,
    at: int,
    iid: IdentityId,
)
    requires
        0 <= at < chain.len(),
        g.primary(chain[at], iid) is None,
        g.in_status(chain[at], iid, RevisionStatus::Tombstone) is Some,
        forall|i: int|
            0 <= i < at ==> g.primary(#[trigger] chain[i], iid) is None && g.in_status(
                chain[i],
                iid,
                RevisionStatus::Tombstone,
            ) is None,
    ensures
        identity_revision(g, marks, chain, iid) is None,
{
    lemma_chain_stops(g, chain, at, iid);
}

/// The revision that an edge leads to on a chain.
pub open spec fn edge_revision(
    g: GraphView,
    m: Map<Seq<char>, Seq<u8>>,
    marks: Option<Map<Seq<char>, Seq<u8>>>,
    chain: Seq<BranchId>,
    e: GraphEdge,
) -> Option<RevisionView> {
    if chain.len() == 0 {
        None
    } else {
        identity_revision(g, marks, chain, overrides::effective_target(m, chain, e))
    }
}

/// Finds the revision that an edge leads to, marks of deletion aside.
pub fn resolve_edge_target<'a>(
    g: &'a InMemoryGraph,
    kv: &MemoryKv,
    chain: &Vec<BranchId>,
    edge: &GraphEdge,
) -> (r: Option<&'a NodeRevision>)
    ensures
        found(r) == edge_revision(g@, kv@, None, chain@, *edge),
{
    resolve_edge_target_with_absence(g, kv, chain, edge, None)
}

/// Finds the revision that an edge leads to.
pub fn resolve_edge_target_with_absence<'a>(
    g: &'a InMemoryGraph,
    kv: &MemoryKv,
    chain: &Vec<BranchId>,
    edge: &GraphEdge,
    absence: Option<&MemoryKv>,
) -> (r: Option<&'a NodeRevision>)
    ensures
        found(r) == edge_revision(g@, kv@, marks_of(absence), chain@, *edge),
{
    if chain.len() == 0 {
        return None;
    }
    let target = EdgeTargetOverrideStore::new().effective_target_identity_in_chain(kv, chain, edge);
    resolve_identity_revision_with_absence(g, chain, target, absence)
}

/// The revision that the first edge of a list to be taken leads to.
pub open spec fn first_target(
    g: GraphView,
    m: Map<Seq<char>, Seq<u8>>,
    marks: Option<Map<Seq<char>, Seq<u8>>>,
    chain: Seq<BranchId>,
    edges: Seq<GraphEdge>,
    calls: bool,
) -> Option<RevisionView>
    decreases edges.len(),
{
    if edges.len() == 0 {
        None
    } else {
        let e = edges[0];
        let taken = if calls {
            e.ty == EdgeType::Calls
        } else {
            e.ty == EdgeType::Imports || e.ty == EdgeType::Extends
        };
        if taken && edge_revision(g, m, marks, chain, e) is Some {
            edge_revision(g, m, marks, chain, e)
        } else {
            first_target(g, m, marks, chain, edges.skip(1), calls)
        }
    }
}

/// The definition that a revision leads to: by a call, or else by an import or a base.
pub open spec fn definition_target(
    g: GraphView,
    m: Map<Seq<char>, Seq<u8>>,
    marks: Option<Map<Seq<char>, Seq<u8>>>,
    chain: Seq<BranchId>,
    source: NodeRevisionId,
) -> Option<RevisionView> {
    let edges = context_edges(g, chain, source);
    match first_target(g, m, marks, chain, edges, true) {
        Some(r) => Some(r),
        None => first_target(g, m, marks, chain, edges, false),
    }
}

/// Finds the revision that the first edge of a list to be taken leads to.
fn find_first_target<'a>(
    g: &'a InMemoryGraph,
    kv: &MemoryKv,
    chain: &Vec<BranchId>,
    edges: &Vec<GraphEdge>,
    calls: bool,
    absence: Option<&MemoryKv>,
) -> (r: Option<&'a NodeRevision>)
    ensures
        found(r) == first_target(g@, kv@, marks_of(absence), chain@, edges@, calls),
{
    let mut i: usize = 0;
    assert(edges@.skip(0) =~= edges@);
    while i < edges.len()
        invariant
            i <= edges.len(),
            first_target(g@, kv@, marks_of(absence), chain@, edges@.skip(i as int), calls)
                == first_target(g@, kv@, marks_of(absence), chain@, edges@, calls),
        decreases edges.len() - i,
    {
        let e = edges[i];
        assert(edges@.skip(i as int)[0] == e);
        assert(edges@.skip(i as int).skip(1) =~= edges@.skip(i + 1));
        let taken = if calls {
            e.ty == EdgeType::Calls
        } else {
            e.ty == EdgeType::Imports || e.ty == EdgeType::Extends
        };
        if taken {
            if let Some(rev) = resolve_edge_target_with_absence(g, kv, chain, &e, absence) {
                return Some(rev);
            }
        }
        i = i + 1;
    }
    None
}

/// Finds the definition that a revision leads to, marks of deletion aside.
pub fn resolve_definition_target<'a>(
    g: &'a InMemoryGraph,
    kv: &MemoryKv,
    chain: &Vec<BranchId>,
    source_revision: NodeRevisionId,
) -> (r: Option<&'a NodeRevision>)
    ensures
        found(r) == definition_target(g@, kv@, None, chain@, source_revision),
{
    resolve_definition_target_with_absence(g, kv, chain, source_revision, None)
}

/// Finds the definition that a revision leads to.
pub fn resolve_definition_target_with_absence<'a>(
    g: &'a InMemoryGraph,
    kv: &MemoryKv,
    chain: &Vec<BranchId>,
    source_revision: NodeRevisionId,
    absence: Option<&MemoryKv>,
) -> (r: Option<&'a NodeRevision>)
    ensures
        found(r) == definition_target(g@, kv@, marks_of(absence), chain@, source_revision),
{
    let edges = outbound_context_edges(g, chain, source_revision);
    if let Some(rev) = find_first_target(g, kv, chain, &edges, true, absence) {
        return Some(rev);
    }
    find_first_target(g, kv, chain, &edges, false, absence)
}

/// An edge that should lead to a definition and does not.
pub open spec fn unresolved(
    g: GraphView,
    m: Map<Seq<char>, Seq<u8>>,
    chain: Seq<BranchId>,
    e: GraphEdge,
) -> bool {
    (e.ty == EdgeType::Imports || e.ty == EdgeType::Extends || e.ty == EdgeType::Calls)
        && edge_revision(g, m, None, chain, e) is None
}

/// How many edges of a list should lead to a definition and do not.
pub open spec fn unresolved_among(
    g: GraphView,
    m: Map<Seq<char>, Seq<u8>>,
    chain: Seq<BranchId>,
    edges: Seq<GraphEdge>,
) -> nat
    decreases edges.len(),
{
    if edges.len() == 0 {
        0
    } else {
        unresolved_among(g, m, chain, edges.drop_last()) + (if unresolved(g, m, chain, edges.last()) {
            1nat
        } else {
            0nat
        })
    }
}

/// Counts the edges of a revision that should lead to a definition and do not.
pub fn count_unresolved_definition_edges(
    g: &InMemoryGraph,
    kv: &MemoryKv,
    chain: &Vec<BranchId>,
    source_revision: NodeRevisionId,
) -> (n: usize)
    ensures
        n == unresolved_among(g@, kv@, chain@, context_edges(g@, chain@, source_revision)),
{
    let edges = outbound_context_edges(g, chain, source_revision);
    let mut n: usize = 0;
    let mut i: usize = 0;
    assert(edges@.take(0) =~= Seq::<GraphEdge>::empty());
    while i < edges.len()
        invariant
            i <= edges.len(),
            n <= i,
            n == unresolved_among(g@, kv@, chain@, edges@.take(i as int)),
        decreases edges.len() - i,
    {
        let e = edges[i];
        proof {
            assert(edges@.take(i + 1).drop_last() =~= edges@.take(i as int));
            assert(edges@.take(i + 1).last() == e);
        }
        let counts = match e.ty {
            EdgeType::Imports | EdgeType::Extends | EdgeType::Calls => true,
            _ => false,
        };
        if counts && resolve_edge_target(g, kv, chain, &e).is_none() {
            n = n + 1;
        }
        i = i + 1;
    }
    assert(edges@.take(edges@.len() as int) =~= edges@);
    n
}

/// Says which paths of edges a walk goes on along.
pub trait PathJudge {
    /// The judge gives one verdict on a path, whenever it is asked.
    spec fn steady(&self) -> bool;

    /// A walk goes on along a path.
    spec fn keeps(&self, path: Seq<GraphEdge>) -> bool;

    /// Whether a walk goes on along a path.
    fn keep(&self, path: &Vec<GraphEdge>) -> (r: bool)
        requires
            self.steady(),
        ensures
            r == self.keeps(path@),
    ;
}

/// A walk goes on along every path.
pub struct AnyPath;

impl PathJudge for AnyPath {
    open spec fn steady(&self) -> bool {
        true
    }

    open spec fn keeps(&self, path: Seq<GraphEdge>) -> bool {
        true
    }

    fn keep(&self, path: &Vec<GraphEdge>) -> (r: bool) {
        true
    }
}

/// A walk goes on along the paths that a function keeps.
pub struct PathTest<F>(pub F);

impl<F: Fn(&Vec<GraphEdge>) -> bool> PathJudge for PathTest<F> {
    open spec fn steady(&self) -> bool {
        &&& forall|v: &Vec<GraphEdge>| #[trigger] call_requires(self.0, (v,))
        &&& forall|v: &Vec<GraphEdge>, w: &Vec<GraphEdge>, a: bool, b: bool|
            v@ == w@ && #[trigger] call_ensures(self.0, (v,), a) && #[trigger] call_ensures(
                self.0,
                (w,),
                b,
            ) ==> a == b
    }

    open spec fn keeps(&self, path: Seq<GraphEdge>) -> bool {
        exists|v: &Vec<GraphEdge>| v@ == path && #[trigger] call_ensures(self.0, (v,), true)
    }

    fn keep(&self, path: &Vec<GraphEdge>) -> (r: bool) {
        (self.0)(path)
    }
}

/// Where a walk has come: a revision, how many steps away, and along which edges.
pub struct Stop {
    pub rid: NodeRevisionId,
    pub depth: u32,
    pub path: Seq<GraphEdge>,
}

/// A walk under way.
pub struct Walk {
    pub queue: Seq<Stop>,
    pub seen: Set<NodeRevisionId>,
    pub hits: Seq<(NodeRevisionId, Seq<GraphEdge>)>,
    pub pruned: usize,
}

/// What a walk goes by.
pub struct WalkEnv<J> {
    pub g: GraphView,
    pub m: Map<Seq<char>, Seq<u8>>,
    pub marks: Option<Map<Seq<char>, Seq<u8>>>,
    pub chain: Seq<BranchId>,
    pub start: NodeRevisionId,
    pub depth: u32,
    pub judge: J,
}

/// A walk begins.
pub open spec fn walk_start(start: NodeRevisionId) -> Walk {
    Walk {
        queue: seq![Stop { rid: start, depth: 0, path: Seq::empty() }],
        seen: Set::empty(),
        hits: Seq::empty(),
        pruned: 0,
    }
}

/// What is queued, and how many ways were not followed.
pub struct Frontier {
    pub queue: Seq<Stop>,
    pub pruned: usize,
}

/// One edge of a stop is looked at: what it leads to is queued, unless the path is not kept or leads
/// nowhere.
pub open spec fn edge_step<J: PathJudge>(
    env: WalkEnv<J>,
    f: Frontier,
    stop: Stop,
    e: GraphEdge,
) -> Frontier {
    let path = stop.path.push(e);
    if !env.judge.keeps(path) {
        Frontier { pruned: merge_edges::bumped(f.pruned), ..f }
    } else {
        match edge_revision(env.g, env.m, env.marks, env.chain, e) {
            None => Frontier { pruned: merge_edges::bumped(f.pruned), ..f },
            Some(t) => Frontier {
                queue: f.queue.push(
                    Stop { rid: t.revision_id, depth: (stop.depth + 1) as u32, path },
                ),
                ..f
            },
        }
    }
}

/// The edges of a stop are looked at in order.
pub open spec fn edges_step<J: PathJudge>(
    env: WalkEnv<J>,
    f: Frontier,
    stop: Stop,
    edges: Seq<GraphEdge>,
) -> Frontier
    decreases edges.len(),
{
    if edges.len() == 0 {
        f
    } else {
        edge_step(env, edges_step(env, f, stop, edges.drop_last()), stop, edges.last())
    }
}

/// A stop is taken off the queue and visited: once, within the depth, on the chain, and only if the
/// path to it is kept.
pub open spec fn walk_step<J: PathJudge>(env: WalkEnv<J>, w: Walk) -> Walk {
    if w.queue.len() == 0 {
        w
    } else {
        let stop = w.queue[0];
        let popped = Walk { queue: w.queue.skip(1), seen: w.seen.insert(stop.rid), ..w };
        if w.seen.contains(stop.rid) || stop.depth > env.depth {
            popped
        } else {
            match env.g.rev(stop.rid) {
                None => popped,
                Some(r) => if !env.chain.contains(r.branch_id) {
                    popped
                } else if stop.rid != env.start && !env.judge.keeps(stop.path) {
                    Walk { pruned: merge_edges::bumped(popped.pruned), ..popped }
                } else {
                    let hit = Walk { hits: popped.hits.push((stop.rid, stop.path)), ..popped };
                    if stop.depth == env.depth || opaque_gate(env.g, r.identity_id) {
                        hit
                    } else {
                        let f = edges_step(
                            env,
                            Frontier { queue: hit.queue, pruned: hit.pruned },
                            stop,
                            context_edges(env.g, env.chain, stop.rid),
                        );
                        Walk { queue: f.queue, pruned: f.pruned, ..hit }
                    }
                },
            }
        }
    }
}

/// A walk after a number of steps.
pub open spec fn walked<J: PathJudge>(env: WalkEnv<J>, w: Walk, steps: nat) -> Walk
    decreases steps,
{
    if steps == 0 {
        w
    } else {
        walk_step(env, walked(env, w, (steps - 1) as nat))
    }
}

/// The hits of a walk, with the paths to them, and how many ways were not followed.
#[derive(Debug)]
pub struct ExpandContextResult {
    pub hits: Vec<(NodeRevisionId, Vec<GraphEdge>)>,
    pub pruned_low_confidence_count: usize,
}

/// What hits hold.
pub open spec fn hit_views(v: Seq<(NodeRevisionId, Vec<GraphEdge>)>) -> Seq<
    (NodeRevisionId, Seq<GraphEdge>),
> {
    v.map_values(|h: (NodeRevisionId, Vec<GraphEdge>)| (h.0, h.1@))
}

/// What queued stops hold.
pub open spec fn stop_views(v: Seq<(NodeRevisionId, u32, Vec<GraphEdge>)>) -> Seq<Stop> {
    v.map_values(
        |s: (NodeRevisionId, u32, Vec<GraphEdge>)| Stop { rid: s.0, depth: s.1, path: s.2@ },
    )
}

/// How many revisions have not been seen.
pub open spec fn unseen(revs: Seq<RevisionView>, seen: Set<NodeRevisionId>) -> nat
    decreases revs.len(),
{
    if revs.len() == 0 {
        0
    } else {
        unseen(revs.drop_last(), seen) + (if seen.contains(revs.last().revision_id) {
            0nat
        } else {
            1nat
        })
    }
}

/// Seeing a revision that is there and was not seen leaves fewer.
proof fn lemma_unseen_shrinks(
    revs: Seq<RevisionView>,
    seen: Set<NodeRevisionId>,
    rid: NodeRevisionId,
)
    ensures
        unseen(revs, seen.insert(rid)) <= unseen(revs, seen),
        !seen.contains(rid) && (exists|i: int|
            0 <= i < revs.len() && (#[trigger] revs[i]).revision_id == rid) ==> unseen(
            revs,
            seen.insert(rid),
        ) < unseen(revs, seen),
    decreases revs.len(),
{
    if revs.len() > 0 {
        lemma_unseen_shrinks(revs.drop_last(), seen, rid);
        if exists|i: int| 0 <= i < revs.len() && (#[trigger] revs[i]).revision_id == rid {
            let i = choose|i: int| 0 <= i < revs.len() && (#[trigger] revs[i]).revision_id == rid;
            if i < revs.len() - 1 {
                assert(revs.drop_last()[i].revision_id == rid);
            }
        }
    }
}

/// Looks at the edges of a stop.
fn follow_edges<J: PathJudge>(
    g: &InMemoryGraph,
    kv: &MemoryKv,
    judge: &J,
    chain: &Vec<BranchId>,
    absence: Option<&MemoryKv>,
    start: NodeRevisionId,
    depth: u32,
    queue: &mut Vec<(NodeRevisionId, u32, Vec<GraphEdge>)>,
    pruned: usize,
    rid: NodeRevisionId,
    at: u32,
    path: &Vec<GraphEdge>,
) -> (r: usize)
    requires
        at < depth,
        judge.steady(),
    ensures
        (Frontier { queue: stop_views(final(queue)@), pruned: r }) == edges_step(
            walk_env(g, kv, judge, chain, absence, start, depth),
            Frontier { queue: stop_views(old(queue)@), pruned },
            Stop { rid, depth: at, path: path@ },
            context_edges(g@, chain@, rid),
        ),
{
    let ghost env = walk_env(g, kv, judge, chain, absence, start, depth);
    let ghost stop = Stop { rid, depth: at, path: path@ };
    let ghost f0 = Frontier { queue: stop_views(queue@), pruned };
    let edges = outbound_context_edges(g, chain, rid);
    let mut pruned_now = pruned;
    let mut i: usize = 0;
    assert(edges@.take(0) =~= Seq::<GraphEdge>::empty());
    while i < edges.len()
        invariant
            i <= edges.len(),
            at < depth,
            judge.steady(),
            env == walk_env(g, kv, judge, chain, absence, start, depth),
            stop == (Stop { rid, depth: at, path: path@ }),
            (Frontier { queue: stop_views(queue@), pruned: pruned_now }) == edges_step(
                env,
                f0,
                stop,
                edges@.take(i as int),
            ),
        decreases edges.len() - i,
    {
        let e = edges[i];
        let ghost q0 = stop_views(queue@);
        proof {
            assert(edges@.take(i + 1).drop_last() =~= edges@.take(i as int));
            assert(edges@.take(i + 1).last() == e);
        }
        let mut next = copy_edges(path);
        next.push(e);
        let ghost nv = next@;
        if !judge.keep(&next) {
            pruned_now = bump(pruned_now);
        } else {
            match resolve_edge_target_with_absence(g, kv, chain, &e, absence) {
                None => {
                    pruned_now = bump(pruned_now);
                },
                Some(t) => {
                    let tid = t.revision_id;
                    queue.push((tid, at + 1, next));
                    assert(stop_views(queue@) =~= q0.push(
                        Stop { rid: tid, depth: (at + 1) as u32, path: nv },
                    ));
                },
            }
        }
        i = i + 1;
    }
    assert(edges@.take(edges@.len() as int) =~= edges@);
    pruned_now
}

/// What a walk goes by.
pub open spec fn walk_env<J>(
    g: &InMemoryGraph,
    kv: &MemoryKv,
    judge: &J,
    chain: &Vec<BranchId>,
    absence: Option<&MemoryKv>,
    start: NodeRevisionId,
    depth: u32,
) -> WalkEnv<J> {
    WalkEnv {
        g: g@,
        m: kv@,
        marks: marks_of(absence),
        chain: chain@,
        start,
        depth,
        judge: *judge,
    }
}

/// Visits the stop in front of the queue.
fn visit<J: PathJudge>(
    g: &InMemoryGraph,
    kv: &MemoryKv,
    judge: &J,
    chain: &Vec<BranchId>,
    absence: Option<&MemoryKv>,
    start: NodeRevisionId,
    depth: u32,
    queue: &mut Vec<(NodeRevisionId, u32, Vec<GraphEdge>)>,
    seen: &mut Vec<NodeRevisionId>,
    result: &mut ExpandContextResult,
)
    requires
        old(queue)@.len() > 0,
        judge.steady(),
    ensures
        (Walk {
            queue: stop_views(final(queue)@),
            seen: final(seen)@.to_set(),
            hits: hit_views(final(result).hits@),
            pruned: final(result).pruned_low_confidence_count,
        }) == walk_step(
            walk_env(g, kv, judge, chain, absence, start, depth),
            Walk {
                queue: stop_views(old(queue)@),
                seen: old(seen)@.to_set(),
                hits: hit_views(old(result).hits@),
                pruned: old(result).pruned_low_confidence_count,
            },
        ),
{
    let ghost env = walk_env(g, kv, judge, chain, absence, start, depth);
    let ghost q0 = stop_views(queue@);
    let ghost h0 = hit_views(result.hits@);
    let (rid, at, path) = queue.remove(0);
    let ghost stop = Stop { rid, depth: at, path: path@ };
    proof {
        assert(q0[0] == stop);
        assert(stop_views(queue@) =~= q0.skip(1));
    }
    let ghost s0 = seen@;
    let again = contains_revision(seen, rid);
    seen.push(rid);
    proof {
        assert forall|x: NodeRevisionId| seen@.to_set().contains(x) <==> s0.to_set().insert(
            rid,
        ).contains(x) by {
            tracker::lemma_push_contains(s0, rid, x);
        }
        assert(seen@.to_set() =~= s0.to_set().insert(rid));
    }
    if again || at > depth {
        return;
    }
    let rev = match g.get_revision(rid) {
        Some(r) => r,
        None => {
            return;
        },
    };
    if !contains_branch(chain, rev.branch_id) {
        return;
    }
    if rid != start && !judge.keep(&path) {
        result.pruned_low_confidence_count = bump(result.pruned_low_confidence_count);
        return;
    }
    let trail = copy_edges(&path);
    result.hits.push((rid, trail));
    assert(hit_views(result.hits@) =~= h0.push((rid, path@)));
    if at == depth || is_opaque_traversal_gate(g, rev) {
        return;
    }
    result.pruned_low_confidence_count =
    follow_edges(
        g,
        kv,
        judge,
        chain,
        absence,
        start,
        depth,
        queue,
        result.pruned_low_confidence_count,
        rid,
        at,
        &path,
    );
}

/// The result is that of a walk to its end.
pub open spec fn walk_ends<J: PathJudge>(env: WalkEnv<J>, steps: nat, r: ExpandContextResult) -> bool {
    let w = walked(env, walk_start(env.start), steps);
    w.queue.len() == 0 && hit_views(r.hits@) == w.hits && r.pruned_low_confidence_count == w.pruned
}

/// Walks from a revision along the edges that context follows, marks of deletion aside.
pub fn expand_context_bfs<J: PathJudge>(
    g: &InMemoryGraph,
    kv: &MemoryKv,
    judge: &J,
    chain: &Vec<BranchId>,
    start: NodeRevisionId,
    depth: u32,
) -> (r: ExpandContextResult)
    requires
        judge.steady(),
    ensures
        exists|steps: nat| #[trigger]
            walk_ends(walk_env(g, kv, judge, chain, None, start, depth), steps, r),
{
    expand_context_bfs_with_absence(g, kv, judge, chain, start, depth, None)
}

/// Walks from a revision along the edges that context follows, breadth first: each revision once, no
/// farther than `depth`, along paths that are kept, and not beyond an opaque gate.
pub fn expand_context_bfs_with_absence<J: PathJudge>(
    g: &InMemoryGraph,
    kv: &MemoryKv,
    judge: &J,
    chain: &Vec<BranchId>,
    start: NodeRevisionId,
    depth: u32,
    absence: Option<&MemoryKv>,
) -> (r: ExpandContextResult)
    requires
        judge.steady(),
    ensures
        exists|steps: nat| #[trigger]
            walk_ends(walk_env(g, kv, judge, chain, absence, start, depth), steps, r),
{
    let ghost env = walk_env(g, kv, judge, chain, absence, start, depth);
    let mut queue: Vec<(NodeRevisionId, u32, Vec<GraphEdge>)> = Vec::new();
    let mut seen: Vec<NodeRevisionId> = Vec::new();
    let mut result = ExpandContextResult { hits: Vec::new(), pruned_low_confidence_count: 0 };
    let empty: Vec<GraphEdge> = Vec::new();
    assert(empty@ =~= Seq::<GraphEdge>::empty());
    queue.push((start, 0, empty));
    let ghost mut steps: nat = 0;
    proof {
        let w = walk_start(start);
        assert(stop_views(queue@) =~= w.queue);
        assert(seen@.to_set() =~= w.seen);
        assert(hit_views(result.hits@) =~= w.hits);
    }
    while queue.len() > 0
        invariant
            judge.steady(),
            env == walk_env(g, kv, judge, chain, absence, start, depth),
            (Walk {
                queue: stop_views(queue@),
                seen: seen@.to_set(),
                hits: hit_views(result.hits@),
                pruned: result.pruned_low_confidence_count,
            }) == walked(env, walk_start(start), steps),
        decreases unseen(g@.revisions, seen@.to_set()), queue.len(),
    {
        let ghost w0 = walked(env, walk_start(start), steps);
        let ghost s0 = seen@.to_set();
        proof {
            lemma_walk_step_progress(env, w0);
            assert(stop_views(queue@).len() == queue@.len());
        }
        visit(g, kv, judge, chain, absence, start, depth, &mut queue, &mut seen, &mut result);
        proof {
            steps = steps + 1;
            assert(stop_views(queue@).len() == queue@.len());
        }
    }
    proof {
        assert(stop_views(queue@).len() == 0);
        assert(walk_ends(env, steps, result));
    }
    result
}

/// Every step of a walk sees a revision for the first time or shortens the queue.
proof fn lemma_walk_step_progress<J: PathJudge>(env: WalkEnv<J>, w: Walk)
    requires
        w.queue.len() > 0,
    ensures
        ({
            let n = walk_step(env, w);
            let before = unseen(env.g.revisions, w.seen);
            let after = unseen(env.g.revisions, n.seen);
            after < before || (after == before && n.queue.len() < w.queue.len())
        }),
{
    let stop = w.queue[0];
    lemma_unseen_shrinks(env.g.revisions, w.seen, stop.rid);
    if env.g.rev(stop.rid) is Some {
        lemma_rev_is_there(env.g, stop.rid);
    }
    if w.seen.contains(stop.rid) {
        assert(w.seen.insert(stop.rid) =~= w.seen);
    }
}

/// A revision that is found is among the revisions.
proof fn lemma_rev_is_there(g: GraphView, rid: NodeRevisionId)
    requires
        g.rev(rid) is Some,
    ensures
        exists|i: int| 0 <= i < g.revisions.len() && (#[trigger] g.revisions[i]).revision_id == rid,
{
    seqs::lemma_first_is(g.revisions, |r: RevisionView| r.revision_id == rid);
}

/// A walk that has come to its end stays there, so that it ends in one way only.
pub proof fn law_walk_ends_once<J: PathJudge>(env: WalkEnv<J>, a: nat, b: nat)
    requires
        a <= b,
        walked(env, walk_start(env.start), a).queue.len() == 0,
    ensures
        walked(env, walk_start(env.start), b) == walked(env, walk_start(env.start), a),
    decreases b - a,
{
    if a < b {
        law_walk_ends_once(env, a, (b - 1) as nat);
    }
}

/// Each revision is hit at most once, and was seen.
pub open spec fn hits_apart(w: Walk) -> bool {
    &&& forall|i: int, j: int| 0 <= i < j < w.hits.len() ==> (#[trigger] w.hits[i]).0 != (
    #[trigger] w.hits[j]).0
    &&& forall|i: int| 0 <= i < w.hits.len() ==> w.seen.contains((#[trigger] w.hits[i]).0)
}

/// A walk hits no revision twice.
pub proof fn law_walk_hits_once<J: PathJudge>(env: WalkEnv<J>, steps: nat)
    ensures
        hits_apart(walked(env, walk_start(env.start), steps)),
    decreases steps,
{
    if steps > 0 {
        law_walk_hits_once(env, (steps - 1) as nat);
    }
}

/// How many ways a walk does not follow.
pub fn count_pruned_expand_neighbors<J: PathJudge>(
    g: &InMemoryGraph,
    kv: &MemoryKv,
    judge: &J,
    chain: &Vec<BranchId>,
    source_revision: NodeRevisionId,
    depth: u32,
) -> (n: usize)
    requires
        judge.steady(),
    ensures
        exists|steps: nat, r: ExpandContextResult| #[trigger]
            walk_ends(walk_env(g, kv, judge, chain, None, source_revision, depth), steps, r) && n
                == r.pruned_low_confidence_count,
{
    let r = expand_context_bfs(g, kv, judge, chain, source_revision, depth);
    r.pruned_low_confidence_count
}

/// Some edge of a chain's revision leads to an identity.
pub open spec fn edge_arrives(
    m: Map<Seq<char>, Seq<u8>>,
    chain: Seq<BranchId>,
    e: GraphEdge,
    identity: IdentityId,
) -> bool {
    overrides::effective_target(m, chain, e) == identity
}

/// The edges of a list that lead to an identity and whose id is not among `ids`, each id once.
pub open spec fn arriving(
    m: Map<Seq<char>, Seq<u8>>,
    chain: Seq<BranchId>,
    identity: IdentityId,
    got: Seq<GraphEdge>,
    edges: Seq<GraphEdge>,
) -> Seq<GraphEdge>
    decreases edges.len(),
{
    if edges.len() == 0 {
        got
    } else {
        let front = arriving(m, chain, identity, got, edges.drop_last());
        let e = edges.last();
        if edge_arrives(m, chain, e, identity) && !has_edge_id(front, e.edge_id) {
            front.push(e)
        } else {
            front
        }
    }
}

/// Some edge has an id.
pub open spec fn has_edge_id(edges: Seq<GraphEdge>, id: [u8; 16]) -> bool {
    exists|i: int| 0 <= i < edges.len() && (#[trigger] edges[i]).edge_id == id
}

/// The edges that arrive at an identity from the given sources.
pub open spec fn arriving_from(
    g: GraphView,
    m: Map<Seq<char>, Seq<u8>>,
    marks: Option<Map<Seq<char>, Seq<u8>>>,
    chain: Seq<BranchId>,
    identity: IdentityId,
    sources: Seq<IdentityId>,
) -> Seq<GraphEdge>
    decreases sources.len(),
{
    if sources.len() == 0 {
        Seq::empty()
    } else {
        let front = arriving_from(g, m, marks, chain, identity, sources.drop_last());
        match identity_revision(g, marks, chain, sources.last()) {
            Some(src) => arriving(m, chain, identity, front, g.out(src.revision_id)),
            None => front,
        }
    }
}

/// The edges of a list that have an id.
pub open spec fn with_id(edges: Seq<GraphEdge>, id: [u8; 16]) -> Seq<GraphEdge> {
    edges.filter(|e: GraphEdge| e.edge_id == id)
}

/// Edges that arrive because a branch of the chain has set their target are taken in too.
pub open spec fn arriving_by_override(
    g: GraphView,
    m: Map<Seq<char>, Seq<u8>>,
    chain: Seq<BranchId>,
    identity: IdentityId,
    got: Seq<GraphEdge>,
    list: Seq<(BranchId, NodeRevisionId, [u8; 16])>,
) -> Seq<GraphEdge>
    decreases list.len(),
{
    if list.len() == 0 {
        got
    } else {
        let front = arriving_by_override(g, m, chain, identity, got, list.drop_last());
        let x = list.last();
        if chain.contains(x.0) {
            arriving(m, chain, identity, front, with_id(g.out(x.1), x.2))
        } else {
            front
        }
    }
}

/// Takes in the edges of a list that arrive at an identity.
fn take_arriving(
    kv: &MemoryKv,
    chain: &Vec<BranchId>,
    identity_id: IdentityId,
    edges: &Vec<GraphEdge>,
    out: &mut Vec<GraphEdge>,
)
    ensures
        final(out)@ == arriving(kv@, chain@, identity_id, old(out)@, edges@),
{
    let ghost got = out@;
    let mut k: usize = 0;
    assert(edges@.take(0) =~= Seq::<GraphEdge>::empty());
    while k < edges.len()
        invariant
            k <= edges.len(),
            got == old(out)@,
            out@ == arriving(kv@, chain@, identity_id, got, edges@.take(k as int)),
        decreases edges.len() - k,
    {
        let e = edges[k];
        proof {
            assert(edges@.take(k + 1).drop_last() =~= edges@.take(k as int));
            assert(edges@.take(k + 1).last() == e);
        }
        let target =
        EdgeTargetOverrideStore::new().effective_target_identity_in_chain(kv, chain, &e);
        if target == identity_id && !edge_id_known(out, &e.edge_id) {
            out.push(e);
        }
        k = k + 1;
    }
    assert(edges@.take(edges@.len() as int) =~= edges@);
}

/// The edges of a list that have an id.
fn keep_id(edges: &Vec<GraphEdge>, id: &[u8; 16]) -> (r: Vec<GraphEdge>)
    ensures
        r@ == with_id(edges@, *id),
{
    let ghost p = |e: GraphEdge| e.edge_id == *id;
    let mut out: Vec<GraphEdge> = Vec::new();
    let mut i: usize = 0;
    proof {
        seqs::lemma_filter_ends(edges@, p);
    }
    while i < edges.len()
        invariant
            i <= edges.len(),
            p == (|e: GraphEdge| e.edge_id == *id),
            out@ == edges@.take(i as int).filter(p),
        decreases edges.len() - i,
    {
        proof {
            seqs::lemma_filter_step(edges@, p, i as int);
        }
        if same_bytes16(&edges[i].edge_id, id) {
            out.push(edges[i]);
        }
        i = i + 1;
    }
    proof {
        seqs::lemma_filter_ends(edges@, p);
    }
    out
}

/// Whether some edge has an id.
fn edge_id_known(edges: &Vec<GraphEdge>, id: &[u8; 16]) -> (r: bool)
    ensures
        r == has_edge_id(edges@, *id),
{
    let mut i: usize = 0;
    while i < edges.len()
        invariant
            i <= edges.len(),
            forall|j: int| 0 <= j < i ==> (#[trigger] edges@[j]).edge_id != *id,
        decreases edges.len() - i,
    {
        if same_bytes16(&edges[i].edge_id, id) {
            assert(edges@[i as int].edge_id == *id);
            return true;
        }
        i = i + 1;
    }
    false
}

/// `r` are the edges that arrive at an identity on a chain.
pub open spec fn inbound(
    g: GraphView,
    m: Map<Seq<char>, Seq<u8>>,
    marks: Option<Map<Seq<char>, Seq<u8>>>,
    chain: Seq<BranchId>,
    identity: IdentityId,
    r: Seq<GraphEdge>,
) -> bool {
    exists|list: Seq<(BranchId, NodeRevisionId, [u8; 16])>| #[trigger]
        overrides::retargeted(m, identity, list) && r == arriving_by_override(
            g,
            m,
            chain,
            identity,
            arriving_from(g, m, marks, chain, identity, g.sources_targeting(identity)),
            list,
        )
}

/// The edges that arrive at an identity on a chain, no edge twice: from the revisions that its
/// sources stand for, and those whose target a branch of the chain has set to it.
pub fn inbound_edges(
    g: &InMemoryGraph,
    kv: &MemoryKv,
    chain: &Vec<BranchId>,
    identity_id: IdentityId,
    absence: Option<&MemoryKv>,
) -> (r: Vec<GraphEdge>)
    ensures
        inbound(g@, kv@, marks_of(absence), chain@, identity_id, r@),
{
    let sources = g.source_identities_targeting(identity_id);
    let ghost marks = marks_of(absence);
    let mut out: Vec<GraphEdge> = Vec::new();
    let mut i: usize = 0;
    proof {
        assert(sources@.take(0) =~= Seq::<IdentityId>::empty());
        assert(out@ =~= Seq::<GraphEdge>::empty());
    }
    while i < sources.len()
        invariant
            i <= sources.len(),
            marks == marks_of(absence),
            out@ == arriving_from(
                g@,
                kv@,
                marks,
                chain@,
                identity_id,
                sources@.take(i as int),
            ),
        decreases sources.len() - i,
    {
        proof {
            assert(sources@.take(i + 1).drop_last() =~= sources@.take(i as int));
            assert(sources@.take(i + 1).last() == sources@[i as int]);
        }
        if let Some(src) = resolve_identity_revision_with_absence(g, chain, sources[i], absence) {
            let edges = g.outbound_edges(src.revision_id);
            take_arriving(kv, chain, identity_id, &edges, &mut out);
        }
        i = i + 1;
    }
    assert(sources@.take(sources@.len() as int) =~= sources@);
    let ghost got = out@;
    let list = EdgeTargetOverrideStore::new().overrides_targeting(kv, identity_id);
    let mut k: usize = 0;
    assert(list@.take(0) =~= Seq::empty());
    while k < list.len()
        invariant
            k <= list.len(),
            out@ == arriving_by_override(
                g@,
                kv@,
                chain@,
                identity_id,
                got,
                list@.take(k as int),
            ),
        decreases list.len() - k,
    {
        let (branch, source, edge_id) = list[k];
        proof {
            assert(list@.take(k + 1).drop_last() =~= list@.take(k as int));
            assert(list@.take(k + 1).last() == list@[k as int]);
        }
        if contains_branch(chain, branch) {
            let edges = keep_id(&g.outbound_edges(source), &edge_id);
            take_arriving(kv, chain, identity_id, &edges, &mut out);
        }
        k = k + 1;
    }
    assert(list@.take(list@.len() as int) =~= list@);
    out
}

} // verus!
