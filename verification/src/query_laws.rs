//! What holds of answers about the graph, told by the graph itself.

use crate::absence;
use crate::graph;
use crate::graph::{EdgeType, GraphEdge, GraphView, NodeKind, RevisionStatus, RevisionView};
use crate::ids;
use crate::ids::{BranchId, IdentityId, NodeRevisionId};
use crate::overrides;
use crate::queries;
use crate::query_engine;
use crate::query_engine::{Frontier, PathJudge, Stop, Walk, WalkEnv};
use crate::seqs;
use vstd::prelude::*;

verus! {

/// What a filter keeps.
pub proof fn lemma_filter_has<A>(s: Seq<A>, p: spec_fn(A) -> bool, a: A)
    ensures
        s.filter(p).contains(a) <==> s.contains(a) && p(a),
    decreases s.len(),
{
    reveal(Seq::filter);
    if s.len() > 0 {
        let front = s.drop_last();
        lemma_filter_has(front, p, a);
        lemma_last_or_front(s, a);
        if p(s.last()) {
            lemma_last_or_front(front.filter(p).push(s.last()), a);
            assert(front.filter(p).push(s.last()).drop_last() =~= front.filter(p));
        }
    }
}

/// An element of a list is its last or among the others.
proof fn lemma_last_or_front<A>(s: Seq<A>, a: A)
    requires
        s.len() > 0,
    ensures
        s.contains(a) <==> a == s.last() || s.drop_last().contains(a),
{
    if s.contains(a) {
        let k = choose|k: int| 0 <= k < s.len() && s[k] == a;
        if k < s.len() - 1 {
            assert(s.drop_last()[k] == a);
        }
    }
    if s.drop_last().contains(a) {
        let k = choose|k: int| 0 <= k < s.drop_last().len() && s.drop_last()[k] == a;
        assert(s[k] == a);
    }
    assert(s[s.len() - 1] == s.last());
}

/// An element of two lists is in one of them.
proof fn lemma_sum_has<A>(s: Seq<A>, t: Seq<A>, a: A)
    ensures
        (s + t).contains(a) <==> s.contains(a) || t.contains(a),
{
    if s.contains(a) {
        let k = choose|k: int| 0 <= k < s.len() && s[k] == a;
        assert((s + t)[k] == a);
    }
    if t.contains(a) {
        let k = choose|k: int| 0 <= k < t.len() && t[k] == a;
        assert((s + t)[s.len() + k] == a);
    }
    if (s + t).contains(a) {
        let k = choose|k: int| 0 <= k < (s + t).len() && (s + t)[k] == a;
        if k < s.len() {
            assert(s[k] == a);
        } else {
            assert(t[k - s.len()] == a);
        }
    }
}

/// An edge leaves the hub of the file that a revision stands in, and the revision is not the file.
pub open spec fn edge_of_its_file(
    g: GraphView,
    chain: Seq<BranchId>,
    rid: NodeRevisionId,
    e: GraphEdge,
) -> bool {
    match g.rev(rid) {
        Some(r) => match query_engine::file_hub(g, chain, r.file_path) {
            Some(h) => g.kind(r.identity_id) != Some(NodeKind::File) && g.out(h).contains(e),
            None => false,
        },
        None => false,
    }
}

/// Context follows the calls, imports, uses and bases of a revision, and beside them what its file
/// imports, unless it is the file itself; it follows no other edge.
pub proof fn law_context_edges(g: GraphView, chain: Seq<BranchId>, rid: NodeRevisionId, e: GraphEdge)
    ensures
        g.out(rid).contains(e) && (e.ty == EdgeType::Calls || e.ty == EdgeType::Imports || e.ty
            == EdgeType::Uses || e.ty == EdgeType::Extends) ==> query_engine::context_edges(
            g,
            chain,
            rid,
        ).contains(e),
        edge_of_its_file(g, chain, rid, e) && e.ty == EdgeType::Imports
            ==> query_engine::context_edges(g, chain, rid).contains(e),
        query_engine::context_edges(g, chain, rid).contains(e) ==> {
            ||| g.out(rid).contains(e) && (e.ty == EdgeType::Calls || e.ty == EdgeType::Imports
                || e.ty == EdgeType::Uses || e.ty == EdgeType::Extends)
            ||| e.ty == EdgeType::Imports && edge_of_its_file(g, chain, rid, e)
        },
{
    lemma_filter_has(g.out(rid), |x: GraphEdge| query_engine::leads_to_context(x.ty), e);
    lemma_sum_has(
        query_engine::context_among(g.out(rid)),
        query_engine::hub_imports(g, chain, rid),
        e,
    );
    if let Some(r) = g.rev(rid) {
        if let Some(h) = query_engine::file_hub(g, chain, r.file_path) {
            lemma_filter_has(g.out(h), |x: GraphEdge| x.ty == EdgeType::Imports, e);
        }
    }
}

/// The first edge of a list that is taken and leads somewhere.
proof fn lemma_first_target(
    g: GraphView,
    m: Map<Seq<char>, Seq<u8>>,
    marks: Option<Map<Seq<char>, Seq<u8>>>,
    chain: Seq<BranchId>,
    edges: Seq<GraphEdge>,
    calls: bool,
)
    ensures
        match query_engine::first_target(g, m, marks, chain, edges, calls) {
            Some(r) => exists|i: int|
                0 <= i < edges.len() && taken(#[trigger] edges[i], calls)
                    && query_engine::edge_revision(g, m, marks, chain, edges[i]) == Some(r)
                    && forall|j: int|
                    0 <= j < i && taken(#[trigger] edges[j], calls)
                        ==> query_engine::edge_revision(g, m, marks, chain, edges[j]) is None,
            None => forall|j: int|
                0 <= j < edges.len() && taken(#[trigger] edges[j], calls)
                    ==> query_engine::edge_revision(g, m, marks, chain, edges[j]) is None,
        },
    decreases edges.len(),
{
    if edges.len() > 0 {
        let rest = edges.skip(1);
        lemma_first_target(g, m, marks, chain, rest, calls);
        let here = taken(edges[0], calls) && query_engine::edge_revision(
            g,
            m,
            marks,
            chain,
            edges[0],
        ) is Some;
        if here {
            assert(taken(edges[0], calls));
        } else {
            assert forall|j: int| 1 <= j < edges.len() implies #[trigger] edges[j] == rest[j - 1] by {}
            match query_engine::first_target(g, m, marks, chain, rest, calls) {
                Some(r) => {
                    let i = choose|i: int|
                        0 <= i < rest.len() && taken(#[trigger] rest[i], calls)
                            && query_engine::edge_revision(g, m, marks, chain, rest[i]) == Some(r)
                            && forall|j: int|
                            0 <= j < i && taken(#[trigger] rest[j], calls)
                                ==> query_engine::edge_revision(g, m, marks, chain, rest[j]) is None;
                    assert(edges[i + 1] == rest[i]);
                    assert forall|j: int| 0 <= j < i + 1 && taken(#[trigger] edges[j], calls) implies query_engine::edge_revision(
                        g,
                        m,
                        marks,
                        chain,
                        edges[j],
                    ) is None by {
                        if j > 0 {
                            assert(edges[j] == rest[j - 1]);
                        }
                    }
                },
                None => {},
            }
        }
    }
}

/// A call, or else an import or a base.
spec fn taken(e: GraphEdge, calls: bool) -> bool {
    if calls {
        e.ty == EdgeType::Calls
    } else {
        e.ty == EdgeType::Imports || e.ty == EdgeType::Extends
    }
}

/// The definition that a revision leads to is where one of its calls leads, if any call leads
/// somewhere; what it or its file imports and what it extends decides only where no call does. Where
/// any of these edges leads somewhere, there is a definition, and it is where one of them leads.
pub proof fn law_calls_come_before_imports(
    g: GraphView,
    m: Map<Seq<char>, Seq<u8>>,
    marks: Option<Map<Seq<char>, Seq<u8>>>,
    chain: Seq<BranchId>,
    source: NodeRevisionId,
    e: GraphEdge,
)
    ensures
        g.out(source).contains(e) && e.ty == EdgeType::Calls && query_engine::edge_revision(
            g,
            m,
            marks,
            chain,
            e,
        ) is Some ==> exists|c: GraphEdge| #[trigger]
            g.out(source).contains(c) && c.ty == EdgeType::Calls
                && query_engine::definition_target(g, m, marks, chain, source) is Some
                && query_engine::definition_target(g, m, marks, chain, source)
                == query_engine::edge_revision(g, m, marks, chain, c),
        g.out(source).contains(e) && (e.ty == EdgeType::Imports || e.ty == EdgeType::Extends)
            && query_engine::edge_revision(g, m, marks, chain, e) is Some
            ==> query_engine::definition_target(g, m, marks, chain, source) is Some,
        edge_of_its_file(g, chain, source, e) && e.ty == EdgeType::Imports && query_engine::edge_revision(g, m, marks, chain, e) is Some
            ==> query_engine::definition_target(g, m, marks, chain, source) is Some,
        query_engine::definition_target(g, m, marks, chain, source) matches Some(t) ==> exists|
            c: GraphEdge,
        | #[trigger]
            query_engine::context_edges(g, chain, source).contains(c) && (c.ty == EdgeType::Calls
                || c.ty == EdgeType::Imports || c.ty == EdgeType::Extends)
                && query_engine::edge_revision(g, m, marks, chain, c) == Some(t),
{
    let edges = query_engine::context_edges(g, chain, source);
    lemma_first_target(g, m, marks, chain, edges, true);
    lemma_first_target(g, m, marks, chain, edges, false);
    law_context_edges(g, chain, source, e);
    if edges.contains(e) {
        let k = choose|k: int| 0 <= k < edges.len() && edges[k] == e;
        assert(taken(edges[k], true) || taken(edges[k], false) || e.ty != EdgeType::Calls);
    }
    let by_call = query_engine::first_target(g, m, marks, chain, edges, true);
    let by_rest = query_engine::first_target(g, m, marks, chain, edges, false);
    if by_call is Some {
        let i = choose|i: int|
            0 <= i < edges.len() && taken(#[trigger] edges[i], true) && query_engine::edge_revision(
                g,
                m,
                marks,
                chain,
                edges[i],
            ) == by_call;
        assert(edges.contains(edges[i]));
        law_context_edges(g, chain, source, edges[i]);
    } else if by_rest is Some {
        let i = choose|i: int|
            0 <= i < edges.len() && taken(#[trigger] edges[i], false) && query_engine::edge_revision(
                g,
                m,
                marks,
                chain,
                edges[i],
            ) == by_rest;
        assert(edges.contains(edges[i]));
    }
}

/// A filter takes what it keeps in order.
proof fn lemma_filter_splits<A>(s: Seq<A>, p: spec_fn(A) -> bool, i: int)
    requires
        0 <= i < s.len(),
        p(s[i]),
    ensures
        s.filter(p) == s.take(i).filter(p) + seq![s[i]] + s.skip(i + 1).filter(p),
    decreases s.len(),
{
    reveal(Seq::filter);
    let front = s.drop_last();
    if i == s.len() - 1 {
        assert(s.take(i) =~= front);
        assert(s.skip(i + 1) =~= Seq::<A>::empty());
        assert(s.filter(p) =~= s.take(i).filter(p) + seq![s[i]] + s.skip(i + 1).filter(p));
    } else {
        lemma_filter_splits(front, p, i);
        assert(front.take(i) =~= s.take(i));
        assert(front.skip(i + 1) =~= s.skip(i + 1).drop_last());
        assert(s.skip(i + 1).last() == s.last());
        assert(s.filter(p) =~= s.take(i).filter(p) + seq![s[i]] + s.skip(i + 1).filter(p));
    }
}

/// Of the calls of a revision the first that leads somewhere is the definition; where no call does, the
/// first of its own imports and bases that leads somewhere is.
pub proof fn law_first_edge_defines(
    g: GraphView,
    m: Map<Seq<char>, Seq<u8>>,
    marks: Option<Map<Seq<char>, Seq<u8>>>,
    chain: Seq<BranchId>,
    source: NodeRevisionId,
    i: int,
)
    requires
        0 <= i < g.out(source).len(),
        query_engine::edge_revision(g, m, marks, chain, g.out(source)[i]) is Some,
    ensures
        g.out(source)[i].ty == EdgeType::Calls && (forall|j: int|
            0 <= j < i && (#[trigger] g.out(source)[j]).ty == EdgeType::Calls
                ==> query_engine::edge_revision(g, m, marks, chain, g.out(source)[j]) is None)
            ==> query_engine::definition_target(g, m, marks, chain, source)
            == query_engine::edge_revision(g, m, marks, chain, g.out(source)[i]),
        (g.out(source)[i].ty == EdgeType::Imports || g.out(source)[i].ty == EdgeType::Extends) && (
        forall|j: int|
            0 <= j < g.out(source).len() && (#[trigger] g.out(source)[j]).ty == EdgeType::Calls
                ==> query_engine::edge_revision(g, m, marks, chain, g.out(source)[j]) is None) && (
        forall|j: int|
            0 <= j < i && ((#[trigger] g.out(source)[j]).ty == EdgeType::Imports || g.out(
                source,
            )[j].ty == EdgeType::Extends) ==> query_engine::edge_revision(
                g,
                m,
                marks,
                chain,
                g.out(source)[j],
            ) is None) ==> query_engine::definition_target(g, m, marks, chain, source)
            == query_engine::edge_revision(g, m, marks, chain, g.out(source)[i]),
{
    let own = g.out(source);
    let edges = query_engine::context_edges(g, chain, source);
    let p = |x: GraphEdge| query_engine::leads_to_context(x.ty);
    if p(own[i]) {
        lemma_filter_splits(own, p, i);
        let ahead = own.take(i).filter(p);
        assert(edges[ahead.len() as int] == own[i]);
        assert forall|k: int| 0 <= k < ahead.len() implies exists|j: int|
            0 <= j < i && own[j] == #[trigger] edges[k] by {
            assert(edges[k] == ahead[k]);
            assert(ahead.contains(ahead[k]));
            lemma_filter_has(own.take(i), p, ahead[k]);
            let j = choose|j: int| 0 <= j < own.take(i).len() && own.take(i)[j] == ahead[k];
            assert(own[j] == edges[k]);
        }
        assert forall|k: int| 0 <= k < edges.len() && (#[trigger] edges[k]).ty == EdgeType::Calls implies own.contains(
            edges[k],
        ) by {
            assert(edges.contains(edges[k]));
            law_context_edges(g, chain, source, edges[k]);
        }
        lemma_first_target(g, m, marks, chain, edges, true);
        lemma_first_target(g, m, marks, chain, edges, false);
        if own[i].ty == EdgeType::Calls {
            assert(taken(edges[ahead.len() as int], true));
        } else {
            assert(taken(edges[ahead.len() as int], false) || own[i].ty == EdgeType::Uses);
        }
    }
}

/// An identity stands for a revision of the graph on the chain that is active or speculative, of that
/// identity, or of one that a tombstone of it on the chain names as its successor.
pub proof fn law_identity_stands_for_a_live_revision(
    g: GraphView,
    marks: Option<Map<Seq<char>, Seq<u8>>>,
    chain: Seq<BranchId>,
    iid: IdentityId,
)
    ensures
        query_engine::identity_revision(g, marks, chain, iid) matches Some(r) ==> {
            &&& g.revisions.contains(r)
            &&& chain.contains(r.branch_id)
            &&& r.status == RevisionStatus::Active || r.status == RevisionStatus::Speculative
            &&& r.identity_id == iid || exists|t: RevisionView, e: GraphEdge|
                g.revisions.contains(t) && t.identity_id == iid && chain.contains(t.branch_id)
                    && t.status == RevisionStatus::Tombstone && #[trigger] g.out(
                    t.revision_id,
                ).contains(e) && e.ty == EdgeType::RenamedFrom && e.target_identity_id
                    == r.identity_id
        },
{
    lemma_primary_in_chain(g, chain, iid);
    if let Some(p) = g.primary_in_chain(chain, iid) {
        if let Some(s) = g.rename_successor(p.revision_id) {
            lemma_primary_in_chain(g, chain, s);
            seqs::lemma_first_is(g.out(p.revision_id), |e: GraphEdge| e.ty == EdgeType::RenamedFrom);
            let e = seqs::first_such(
                g.out(p.revision_id),
                |e: GraphEdge| e.ty == EdgeType::RenamedFrom,
            )->0;
            assert(g.out(p.revision_id).contains(e));
        }
    }
}

/// What is first on a chain is a revision of the identity on the chain.
proof fn lemma_primary_in_chain(g: GraphView, chain: Seq<BranchId>, iid: IdentityId)
    ensures
        g.primary_in_chain(chain, iid) matches Some(r) ==> g.revisions.contains(r)
            && chain.contains(r.branch_id) && r.identity_id == iid,
    decreases chain.len(),
{
    if chain.len() > 0 {
        lemma_primary(g, chain[0], iid);
        lemma_in_status(g, chain[0], iid, RevisionStatus::Tombstone);
        lemma_primary_in_chain(g, chain.drop_first(), iid);
        assert(chain.contains(chain[0]));
        if let Some(r) = g.primary_in_chain(chain.drop_first(), iid) {
            let rest = chain.drop_first();
            let k = choose|k: int| 0 <= k < rest.len() && rest[k] == r.branch_id;
            assert(chain[k + 1] == r.branch_id);
        }
    }
}

/// What is first in a status is in the graph.
proof fn lemma_in_status(g: GraphView, branch: BranchId, iid: IdentityId, status: RevisionStatus)
    ensures
        match g.in_status(branch, iid, status) {
            Some(r) => g.revisions.contains(r) && r.branch_id == branch && r.identity_id == iid
                && r.status == status,
            None => forall|k: int|
                0 <= k < g.revisions.len() ==> !((#[trigger] g.revisions[k]).branch_id == branch
                    && g.revisions[k].identity_id == iid && g.revisions[k].status == status),
        },
{
    let p = |r: RevisionView|
        r.branch_id == branch && r.identity_id == iid && r.status == status;
    seqs::lemma_first_is(g.revisions, p);
    if g.in_status(branch, iid, status) is None {
        assert forall|k: int| 0 <= k < g.revisions.len() implies !((
        #[trigger] g.revisions[k]).branch_id == branch && g.revisions[k].identity_id == iid
            && g.revisions[k].status == status) by {
            assert(!p(g.revisions[k]));
        }
    }
}

/// What stands for a symbol on a branch is in the graph.
proof fn lemma_primary(g: GraphView, branch: BranchId, iid: IdentityId)
    ensures
        g.primary(branch, iid) matches Some(r) ==> g.revisions.contains(r) && r.branch_id == branch
            && r.identity_id == iid && r.status != RevisionStatus::Orphaned,
{
    lemma_in_status(g, branch, iid, RevisionStatus::Active);
    lemma_in_status(g, branch, iid, RevisionStatus::Speculative);
    seqs::lemma_first_is(
        g.revisions,
        |r: RevisionView|
            r.branch_id == branch && r.identity_id == iid && r.status == RevisionStatus::Tombstone
                && g.rename_successor(r.revision_id) is Some,
    );
}

/// Nothing of a symbol stands on a branch in a status in which it could be asked for or was removed.
pub open spec fn unknown_on(g: GraphView, branch: BranchId, iid: IdentityId) -> bool {
    forall|k: int|
        0 <= k < g.revisions.len() && (#[trigger] g.revisions[k]).branch_id == branch
            && g.revisions[k].identity_id == iid ==> g.revisions[k].status
            == RevisionStatus::Orphaned
}

/// On a branch that knows nothing of a symbol nothing stands for it.
proof fn lemma_unknown(g: GraphView, branch: BranchId, iid: IdentityId)
    requires
        unknown_on(g, branch, iid),
    ensures
        g.primary(branch, iid) is None,
        g.in_status(branch, iid, RevisionStatus::Tombstone) is None,
{
    lemma_in_status(g, branch, iid, RevisionStatus::Active);
    lemma_in_status(g, branch, iid, RevisionStatus::Speculative);
    lemma_in_status(g, branch, iid, RevisionStatus::Tombstone);
    if let Some(r) = g.in_status(branch, iid, RevisionStatus::Tombstone) {
        let k = choose|k: int| 0 <= k < g.revisions.len() && g.revisions[k] == r;
        assert(g.revisions[k].status == RevisionStatus::Orphaned);
    }
    lemma_primary(g, branch, iid);
    if let Some(r) = g.primary(branch, iid) {
        let k = choose|k: int| 0 <= k < g.revisions.len() && g.revisions[k] == r;
        assert(g.revisions[k].status == RevisionStatus::Orphaned);
    }
}

/// Branches that know nothing of a symbol are passed over.
proof fn lemma_chain_skips(g: GraphView, chain: Seq<BranchId>, at: int, iid: IdentityId)
    requires
        0 <= at < chain.len(),
        forall|i: int| 0 <= i < at ==> unknown_on(g, #[trigger] chain[i], iid),
        g.primary(chain[at], iid) is Some,
    ensures
        g.primary_in_chain(chain, iid) == g.primary(chain[at], iid),
    decreases at,
{
    if at > 0 {
        lemma_unknown(g, chain[0], iid);
        let rest = chain.drop_first();
        assert forall|i: int| 0 <= i < at - 1 implies unknown_on(g, #[trigger] rest[i], iid) by {
            assert(rest[i] == chain[i + 1]);
        }
        lemma_chain_skips(g, rest, at - 1, iid);
    }
}

/// On the nearest branch that knows a symbol an active revision stands for it, a speculative one where
/// no active one is there, whatever the branches behind it have; marks of deletion aside.
pub proof fn law_nearest_branch_decides(
    g: GraphView,
    chain: Seq<BranchId>,
    at: int,
    iid: IdentityId,
    k: int,
)
    requires
        0 <= at < chain.len(),
        forall|i: int| 0 <= i < at ==> unknown_on(g, #[trigger] chain[i], iid),
        0 <= k < g.revisions.len(),
        g.revisions[k].branch_id == chain[at],
        g.revisions[k].identity_id == iid,
    ensures
        g.revisions[k].status == RevisionStatus::Active ==> (query_engine::identity_revision(
            g,
            None,
            chain,
            iid,
        ) matches Some(r) && r.branch_id == chain[at] && r.identity_id == iid && r.status
            == RevisionStatus::Active),
        g.revisions[k].status == RevisionStatus::Speculative ==> (query_engine::identity_revision(
            g,
            None,
            chain,
            iid,
        ) matches Some(r) && r.branch_id == chain[at] && r.identity_id == iid && (r.status
            == RevisionStatus::Active || r.status == RevisionStatus::Speculative && forall|j: int|
            0 <= j < g.revisions.len() && (#[trigger] g.revisions[j]).branch_id == chain[at]
                && g.revisions[j].identity_id == iid ==> g.revisions[j].status
                != RevisionStatus::Active)),
{
    lemma_in_status(g, chain[at], iid, RevisionStatus::Active);
    lemma_in_status(g, chain[at], iid, RevisionStatus::Speculative);
    if g.primary(chain[at], iid) is Some {
        lemma_chain_skips(g, chain, at, iid);
    }
}

/// Where the nearest branch that knows a symbol has it as a tombstone alone that names a successor, the
/// symbol stands for what its successor stands for, if that is a revision of the successor itself.
pub proof fn law_rename_is_followed(
    g: GraphView,
    chain: Seq<BranchId>,
    at: int,
    iid: IdentityId,
    t: RevisionView,
    to: IdentityId,
)
    requires
        0 <= at < chain.len(),
        forall|i: int| 0 <= i < at ==> unknown_on(g, #[trigger] chain[i], iid),
        g.revisions.contains(t),
        t.status == RevisionStatus::Tombstone,
        forall|j: int|
            0 <= j < g.revisions.len() && (#[trigger] g.revisions[j]).branch_id == chain[at]
                && g.revisions[j].identity_id == iid ==> g.revisions[j] == t,
        t.branch_id == chain[at],
        t.identity_id == iid,
        exists|e: GraphEdge| #[trigger]
            g.out(t.revision_id).contains(e) && e.ty == EdgeType::RenamedFrom,
        forall|e: GraphEdge| #[trigger]
            g.out(t.revision_id).contains(e) && e.ty == EdgeType::RenamedFrom
                ==> e.target_identity_id == to,
    ensures
        query_engine::identity_revision(g, None, chain, to) matches Some(r) && r.identity_id == to
            ==> query_engine::identity_revision(g, None, chain, iid)
            == query_engine::identity_revision(g, None, chain, to),
{
    let branch = chain[at];
    let p = |e: GraphEdge| e.ty == EdgeType::RenamedFrom;
    seqs::lemma_first_is(g.out(t.revision_id), p);
    let e0 = choose|e: GraphEdge| #[trigger]
        g.out(t.revision_id).contains(e) && e.ty == EdgeType::RenamedFrom;
    let k0 = choose|k: int| 0 <= k < g.out(t.revision_id).len() && g.out(t.revision_id)[k] == e0;
    assert(p(g.out(t.revision_id)[k0]));
    assert(g.rename_successor(t.revision_id) == Some(to));
    lemma_in_status(g, branch, iid, RevisionStatus::Active);
    lemma_in_status(g, branch, iid, RevisionStatus::Speculative);
    let b = |r: RevisionView|
        r.branch_id == branch && r.identity_id == iid && r.status == RevisionStatus::Tombstone
            && g.rename_successor(r.revision_id) is Some;
    seqs::lemma_first_is(g.revisions, b);
    let k = choose|k: int| 0 <= k < g.revisions.len() && g.revisions[k] == t;
    assert(b(g.revisions[k]));
    assert(g.bridge(branch, iid) == Some(t));
    assert(g.primary(branch, iid) == Some(t)) by {
        if let Some(r) = g.in_status(branch, iid, RevisionStatus::Active) {
            let j = choose|j: int| 0 <= j < g.revisions.len() && g.revisions[j] == r;
            assert(g.revisions[j] == t);
        }
        if let Some(r) = g.in_status(branch, iid, RevisionStatus::Speculative) {
            let j = choose|j: int| 0 <= j < g.revisions.len() && g.revisions[j] == r;
            assert(g.revisions[j] == t);
        }
    }
    lemma_chain_skips(g, chain, at, iid);
    lemma_primary_in_chain(g, chain, to);
    if let Some(p) = g.primary_in_chain(chain, to) {
        if p.status == RevisionStatus::Tombstone {
            if let Some(s) = g.rename_successor(p.revision_id) {
                lemma_primary_in_chain(g, chain, s);
            }
        }
    }
}

/// A symbol that the branch in front of a chain has marked as deleted stands for nothing there, and
/// marks that are not heeded or not there hide nothing.
pub proof fn law_marked_symbol_stands_for_nothing(
    g: GraphView,
    m: Map<Seq<char>, Seq<u8>>,
    chain: Seq<BranchId>,
    iid: IdentityId,
)
    requires
        chain.len() > 0,
    ensures
        m.contains_key(absence::deletion_key(chain[0], iid)) ==> query_engine::identity_revision(
            g,
            Some(m),
            chain,
            iid,
        ) is None,
        (forall|b: BranchId, i: IdentityId|
            !m.contains_key(#[trigger] absence::deletion_key(b, i)))
            ==> query_engine::identity_revision(g, Some(m), chain, iid)
            == query_engine::identity_revision(g, None, chain, iid),
{
    if m.contains_key(absence::deletion_key(chain[0], iid)) {
        assert(absence::hides(m, chain, 0, iid));
    }
    if forall|b: BranchId, i: IdentityId| !m.contains_key(#[trigger] absence::deletion_key(b, i)) {
        assert forall|i: IdentityId| !(#[trigger] absence::hidden(m, chain, i)) by {
            assert forall|k: int| 0 <= k < chain.len() implies !(#[trigger] absence::hides(
                m,
                chain,
                k,
                i,
            )) by {
                assert(!m.contains_key(absence::deletion_key(chain[k], i)));
            }
        }
    }
}

/// The nearest branch of a chain that has set the target of an edge decides where the edge leads; where
/// none has, the edge leads to its own target.
pub proof fn law_nearest_override_decides(
    m: Map<Seq<char>, Seq<u8>>,
    chain: Seq<BranchId>,
    e: GraphEdge,
    at: int,
)
    requires
        0 <= at <= chain.len(),
        forall|i: int|
            0 <= i < at ==> !m.contains_key(
                overrides::override_key(#[trigger] chain[i], e.source_revision_id, e.edge_id),
            ),
    ensures
        at == chain.len() ==> overrides::effective_target(m, chain, e) == e.target_identity_id,
        at < chain.len() && m.contains_key(
            overrides::override_key(chain[at], e.source_revision_id, e.edge_id),
        ) && m[overrides::override_key(chain[at], e.source_revision_id, e.edge_id)].len() == 16
            ==> overrides::effective_target(m, chain, e).0@ == m[overrides::override_key(
            chain[at],
            e.source_revision_id,
            e.edge_id,
        )],
    decreases at,
{
    if at > 0 {
        assert(!m.contains_key(
            overrides::override_key(chain[0], e.source_revision_id, e.edge_id),
        ));
        let rest = chain.skip(1);
        assert forall|i: int| 0 <= i < at - 1 implies !m.contains_key(
            overrides::override_key(#[trigger] rest[i], e.source_revision_id, e.edge_id),
        ) by {
            assert(rest[i] == chain[i + 1]);
        }
        law_nearest_override_decides(m, rest, e, at - 1);
        if at < chain.len() {
            assert(rest[at - 1] == chain[at]);
        }
    } else if chain.len() > 0 {
        let key = overrides::override_key(chain[0], e.source_revision_id, e.edge_id);
        if m.contains_key(key) && m[key].len() == 16 {
            ids::lemma_array_exists(m[key]);
        }
    }
}

/// An edge leads to what its target stands for on the chain.
pub proof fn law_edge_leads_to_its_target(
    g: GraphView,
    m: Map<Seq<char>, Seq<u8>>,
    marks: Option<Map<Seq<char>, Seq<u8>>>,
    chain: Seq<BranchId>,
    e: GraphEdge,
)
    requires
        chain.len() > 0,
        forall|i: int|
            0 <= i < chain.len() ==> !m.contains_key(
                overrides::override_key(#[trigger] chain[i], e.source_revision_id, e.edge_id),
            ),
    ensures
        query_engine::edge_revision(g, m, marks, chain, e) == query_engine::identity_revision(
            g,
            marks,
            chain,
            e.target_identity_id,
        ),
{
    law_nearest_override_decides(m, chain, e, chain.len() as int);
}

/// The first of some edges that hits.
proof fn lemma_first_hit(
    m: Map<Seq<char>, Seq<u8>>,
    branch: BranchId,
    edges: Seq<GraphEdge>,
    iid: IdentityId,
    calls_only: bool,
)
    ensures
        match queries::first_hit(m, branch, edges, iid, calls_only) {
            Some(e) => edges.contains(e) && overrides::effective_target(m, seq![branch], e) == iid
                && (calls_only ==> e.ty == EdgeType::Calls),
            None => forall|k: int|
                0 <= k < edges.len() && overrides::effective_target(
                    m,
                    seq![branch],
                    #[trigger] edges[k],
                ) == iid ==> calls_only && edges[k].ty != EdgeType::Calls,
        },
    decreases edges.len(),
{
    if edges.len() > 0 {
        let rest = edges.skip(1);
        lemma_first_hit(m, branch, rest, iid, calls_only);
        assert(edges.contains(edges[0]));
        match queries::first_hit(m, branch, rest, iid, calls_only) {
            Some(e) => {
                let k = choose|k: int| 0 <= k < rest.len() && rest[k] == e;
                assert(edges[k + 1] == e);
            },
            None => {
                assert forall|k: int|
                    0 < k < edges.len() && overrides::effective_target(
                        m,
                        seq![branch],
                        #[trigger] edges[k],
                    ) == iid implies calls_only && edges[k].ty != EdgeType::Calls by {
                    assert(edges[k] == rest[k - 1]);
                }
            },
        }
    }
}

/// An edge leaves a revision and leads to a symbol, as a branch sees it.
pub open spec fn leads_from(
    g: GraphView,
    m: Map<Seq<char>, Seq<u8>>,
    branch: BranchId,
    rid: NodeRevisionId,
    e: GraphEdge,
    iid: IdentityId,
) -> bool {
    g.out(rid).contains(e) && overrides::effective_target(m, seq![branch], e) == iid
}

/// Which revisions refer to a symbol among some sources.
proof fn lemma_references(
    g: GraphView,
    m: Map<Seq<char>, Seq<u8>>,
    branch: BranchId,
    sources: Seq<IdentityId>,
    iid: IdentityId,
)
    ensures
        forall|k: int, e: GraphEdge|
            0 <= k < sources.len() && g.primary(branch, #[trigger] sources[k]) is Some
                && #[trigger] leads_from(
                g,
                m,
                branch,
                g.primary(branch, sources[k])->0.revision_id,
                e,
                iid,
            ) ==> queries::was_found(
                queries::references(g, m, branch, sources, iid),
                g.primary(branch, sources[k])->0.revision_id,
            ),
        forall|f: int|
            0 <= f < queries::references(g, m, branch, sources, iid).len() ==> {
                let x = #[trigger] queries::references(g, m, branch, sources, iid)[f];
                x.1 is Some && leads_from(g, m, branch, x.0, x.1->0, iid) && exists|k: int|
                    0 <= k < sources.len() && g.primary(branch, #[trigger] sources[k]) is Some
                        && g.primary(branch, sources[k])->0.revision_id == x.0
            },
    decreases sources.len(),
{
    if sources.len() > 0 {
        let front = sources.drop_last();
        let had = queries::references(g, m, branch, front, iid);
        let all = queries::references(g, m, branch, sources, iid);
        lemma_references(g, m, branch, front, iid);
        if let Some(r) = g.primary(branch, sources.last()) {
            lemma_first_hit(m, branch, g.out(r.revision_id), iid, false);
        }
        assert forall|k: int, e: GraphEdge|
            0 <= k < sources.len() && g.primary(branch, #[trigger] sources[k]) is Some
                && #[trigger] leads_from(
                g,
                m,
                branch,
                g.primary(branch, sources[k])->0.revision_id,
                e,
                iid,
            ) implies queries::was_found(all, g.primary(branch, sources[k])->0.revision_id) by {
            let rid = g.primary(branch, sources[k])->0.revision_id;
            if k < front.len() {
                assert(front[k] == sources[k]);
                assert(queries::was_found(had, rid));
                let f = choose|f: int| 0 <= f < had.len() && (#[trigger] had[f]).0 == rid;
                assert(all[f].0 == rid);
            } else {
                let i = choose|i: int| 0 <= i < g.out(rid).len() && g.out(rid)[i] == e;
                assert(overrides::effective_target(m, seq![branch], g.out(rid)[i]) == iid);
                assert(all[had.len() as int].0 == rid);
            }
        }
        assert forall|f: int| 0 <= f < all.len() implies {
            let x = #[trigger] all[f];
            x.1 is Some && leads_from(g, m, branch, x.0, x.1->0, iid) && exists|k: int|
                0 <= k < sources.len() && g.primary(branch, #[trigger] sources[k]) is Some
                    && g.primary(branch, sources[k])->0.revision_id == x.0
        } by {
            if f < had.len() {
                assert(all[f] == had[f]);
                let k = choose|k: int|
                    0 <= k < front.len() && g.primary(branch, #[trigger] front[k]) is Some
                        && g.primary(branch, front[k])->0.revision_id == had[f].0;
                assert(sources[k] == front[k]);
            } else {
                assert(sources[sources.len() - 1] == sources.last());
            }
        }
    }
}

/// Which symbols have an edge to a symbol.
proof fn lemma_sources(g: GraphView, n: nat, iid: IdentityId)
    requires
        n <= g.revisions.len(),
    ensures
        forall|s: IdentityId| #[trigger]
            g.sources_among(n, iid).contains(s) <==> exists|k: int|
                0 <= k < n && (#[trigger] g.revisions[k]).identity_id == s && g.targets(
                    g.revisions[k].revision_id,
                    iid,
                ),
    decreases n,
{
    if n > 0 {
        lemma_sources(g, (n - 1) as nat, iid);
        let front = g.sources_among((n - 1) as nat, iid);
        let r = g.revisions[n - 1];
        assert forall|s: IdentityId| #[trigger] g.sources_among(n, iid).contains(s) <==> exists|
            k: int,
        |
            0 <= k < n && (#[trigger] g.revisions[k]).identity_id == s && g.targets(
                g.revisions[k].revision_id,
                iid,
            ) by {
            if g.targets(r.revision_id, iid) && !front.contains(r.identity_id) {
                lemma_last_or_front(front.push(r.identity_id), s);
                assert(front.push(r.identity_id).drop_last() =~= front);
            }
        }
    }
}

/// What refers to a symbol, a limit aside: the revision that stands for a symbol on the branch is found
/// if an edge of it leads there as the branch sees it, of whatever type the edge is, and the edges of
/// some revision of that symbol name the target; nothing else is found, and each by such an edge.
pub proof fn law_references(
    g: GraphView,
    m: Map<Seq<char>, Seq<u8>>,
    branch: BranchId,
    iid: IdentityId,
    s: IdentityId,
    e: GraphEdge,
    k: int,
)
    ensures
        ({
            let found = queries::references(g, m, branch, g.sources_targeting(iid), iid);
            &&& g.primary(branch, s) is Some && g.out(
                g.primary(branch, s)->0.revision_id,
            ).contains(e) && overrides::effective_target(m, seq![branch], e) == iid && 0 <= k
                < g.revisions.len() && g.revisions[k].identity_id == s && (exists|j: int|
                0 <= j < g.out(g.revisions[k].revision_id).len() && (#[trigger] g.out(
                    g.revisions[k].revision_id,
                )[j]).target_identity_id == iid) ==> exists|f: int|
                0 <= f < found.len() && (#[trigger] found[f]).0 == g.primary(branch, s)->0.revision_id
            &&& forall|f: int|
                0 <= f < found.len() ==> (#[trigger] found[f]).1 is Some && leads_from(
                    g,
                    m,
                    branch,
                    found[f].0,
                    found[f].1->0,
                    iid,
                ) && exists|t: IdentityId| #[trigger]
                    g.primary(branch, t) is Some && g.primary(branch, t)->0.revision_id == found[f].0
        }),
{
    let sources = g.sources_targeting(iid);
    lemma_sources(g, g.revisions.len(), iid);
    lemma_references(g, m, branch, sources, iid);
    let found = queries::references(g, m, branch, sources, iid);
    if g.primary(branch, s) is Some && g.out(g.primary(branch, s)->0.revision_id).contains(e)
        && overrides::effective_target(m, seq![branch], e) == iid && 0 <= k < g.revisions.len()
        && g.revisions[k].identity_id == s && (exists|j: int|
        0 <= j < g.out(g.revisions[k].revision_id).len() && (#[trigger] g.out(
            g.revisions[k].revision_id,
        )[j]).target_identity_id == iid) {
        assert(g.targets(g.revisions[k].revision_id, iid));
        assert(sources.contains(s));
        let i = choose|i: int| 0 <= i < sources.len() && sources[i] == s;
        assert(g.primary(branch, sources[i]) is Some);
        assert(leads_from(g, m, branch, g.primary(branch, s)->0.revision_id, e, iid));
    }
    assert forall|f: int| 0 <= f < found.len() implies (#[trigger] found[f]).1 is Some && leads_from(
        g,
        m,
        branch,
        found[f].0,
        found[f].1->0,
        iid,
    ) && exists|t: IdentityId| #[trigger]
        g.primary(branch, t) is Some && g.primary(branch, t)->0.revision_id == found[f].0 by {
        let i = choose|i: int|
            0 <= i < sources.len() && g.primary(branch, #[trigger] sources[i]) is Some && g.primary(
                branch,
                sources[i],
            )->0.revision_id == found[f].0;
        assert(g.primary(branch, sources[i]) is Some);
    }
}

/// The revision that stands for a symbol on one branch: an active one before a speculative one; and one
/// that is there is never passed over.
pub proof fn law_primary_prefers_active(g: GraphView, branch: BranchId, iid: IdentityId, k: int)
    requires
        0 <= k < g.revisions.len(),
        g.revisions[k].branch_id == branch,
        g.revisions[k].identity_id == iid,
    ensures
        g.revisions[k].status == RevisionStatus::Active ==> (g.primary(branch, iid) matches Some(r)
            && r.status == RevisionStatus::Active && r.branch_id == branch && r.identity_id == iid
            && g.revisions.contains(r)),
        g.revisions[k].status == RevisionStatus::Speculative ==> (g.primary(
            branch,
            iid,
        ) matches Some(r) && (r.status == RevisionStatus::Active || r.status
            == RevisionStatus::Speculative) && r.branch_id == branch && r.identity_id == iid
            && g.revisions.contains(r)),
{
    lemma_in_status(g, branch, iid, RevisionStatus::Active);
    lemma_in_status(g, branch, iid, RevisionStatus::Speculative);
}

/// What calls a symbol, a limit aside: exactly the revisions of the branch that have an edge of calls
/// which leads there as the branch sees it, each by such an edge.
pub proof fn law_callers(
    g: GraphView,
    m: Map<Seq<char>, Seq<u8>>,
    branch: BranchId,
    revs: Seq<RevisionView>,
    iid: IdentityId,
)
    ensures
        ({
            let found = queries::callers(g, m, branch, revs, iid);
            &&& forall|k: int, e: GraphEdge|
                0 <= k < revs.len() && (#[trigger] revs[k]).branch_id == branch
                    && #[trigger] leads_from(g, m, branch, revs[k].revision_id, e, iid) && e.ty
                    == EdgeType::Calls ==> exists|f: int|
                    0 <= f < found.len() && (#[trigger] found[f]).0 == revs[k].revision_id
            &&& forall|f: int|
                0 <= f < found.len() ==> (#[trigger] found[f]).1 is Some && leads_from(
                    g,
                    m,
                    branch,
                    found[f].0,
                    found[f].1->0,
                    iid,
                ) && found[f].1->0.ty == EdgeType::Calls && exists|k: int|
                    0 <= k < revs.len() && (#[trigger] revs[k]).branch_id == branch
                        && revs[k].revision_id == found[f].0
        }),
    decreases revs.len(),
{
    if revs.len() > 0 {
        let front = revs.drop_last();
        let last = revs.last();
        law_callers(g, m, branch, front, iid);
        lemma_first_hit(m, branch, g.out(last.revision_id), iid, true);
        let had = queries::callers(g, m, branch, front, iid);
        let found = queries::callers(g, m, branch, revs, iid);
        assert forall|k: int, e: GraphEdge|
            0 <= k < revs.len() && (#[trigger] revs[k]).branch_id == branch && #[trigger] leads_from(
                g,
                m,
                branch,
                revs[k].revision_id,
                e,
                iid,
            ) && e.ty == EdgeType::Calls implies exists|f: int|
            0 <= f < found.len() && (#[trigger] found[f]).0 == revs[k].revision_id by {
            if k < front.len() {
                assert(front[k] == revs[k]);
                let f = choose|f: int|
                    0 <= f < had.len() && (#[trigger] had[f]).0 == revs[k].revision_id;
                assert(found[f].0 == revs[k].revision_id);
            } else {
                let rid = last.revision_id;
                let i = choose|i: int| 0 <= i < g.out(rid).len() && g.out(rid)[i] == e;
                assert(overrides::effective_target(m, seq![branch], g.out(rid)[i]) == iid);
                assert(found[had.len() as int].0 == rid);
            }
        }
        assert forall|f: int| 0 <= f < found.len() implies (#[trigger] found[f]).1 is Some
            && leads_from(g, m, branch, found[f].0, found[f].1->0, iid) && found[f].1->0.ty
            == EdgeType::Calls && exists|k: int|
            0 <= k < revs.len() && (#[trigger] revs[k]).branch_id == branch && revs[k].revision_id
                == found[f].0 by {
            if f < had.len() {
                assert(found[f] == had[f]);
                let k = choose|k: int|
                    0 <= k < front.len() && (#[trigger] front[k]).branch_id == branch
                        && front[k].revision_id == had[f].0;
                assert(revs[k] == front[k]);
            } else {
                assert(revs[revs.len() - 1] == last);
            }
        }
    }
}

/// What some edges depend on, a limit aside: where each call, use, base and import leads is found, and
/// where imports alone count, where each import leads; nothing else is found, and each by such an edge.
pub proof fn law_dependencies(
    g: GraphView,
    m: Map<Seq<char>, Seq<u8>>,
    chain: Seq<BranchId>,
    edges: Seq<GraphEdge>,
    imports_only: bool,
)
    ensures
        ({
            let found = queries::dependencies(g, m, chain, edges, imports_only);
            &&& forall|k: int|
                0 <= k < edges.len() && query_engine::edge_revision(
                    g,
                    m,
                    None,
                    chain,
                    #[trigger] edges[k],
                ) is Some && (edges[k].ty == EdgeType::Imports || !imports_only && (edges[k].ty
                    == EdgeType::Uses || edges[k].ty == EdgeType::Calls || edges[k].ty
                    == EdgeType::Extends)) ==> queries::was_found(
                    found,
                    query_engine::edge_revision(g, m, None, chain, edges[k])->0.revision_id,
                )
            &&& forall|f: int|
                0 <= f < found.len() ==> {
                    let x = #[trigger] found[f];
                    x.1 is Some && edges.contains(x.1->0) && (query_engine::edge_revision(
                        g,
                        m,
                        None,
                        chain,
                        x.1->0,
                    ) matches Some(r) && r.revision_id == x.0) && (x.1->0.ty == EdgeType::Imports
                        || !imports_only && (x.1->0.ty == EdgeType::Uses || x.1->0.ty
                        == EdgeType::Calls || x.1->0.ty == EdgeType::Extends))
                }
        }),
    decreases edges.len(),
{
    if edges.len() > 0 {
        let front = edges.drop_last();
        let last = edges.last();
        law_dependencies(g, m, chain, front, imports_only);
        let had = queries::dependencies(g, m, chain, front, imports_only);
        let found = queries::dependencies(g, m, chain, edges, imports_only);
        assert forall|rid: NodeRevisionId| #[trigger] queries::was_found(had, rid) implies queries::was_found(
            found,
            rid,
        ) by {
            let f = choose|f: int| 0 <= f < had.len() && (#[trigger] had[f]).0 == rid;
            assert(found[f].0 == rid);
        }
        assert forall|k: int|
            0 <= k < edges.len() && query_engine::edge_revision(
                g,
                m,
                None,
                chain,
                #[trigger] edges[k],
            ) is Some && (edges[k].ty == EdgeType::Imports || !imports_only && (edges[k].ty
                == EdgeType::Uses || edges[k].ty == EdgeType::Calls || edges[k].ty
                == EdgeType::Extends)) implies queries::was_found(
            found,
            query_engine::edge_revision(g, m, None, chain, edges[k])->0.revision_id,
        ) by {
            if k < front.len() {
                assert(front[k] == edges[k]);
            } else {
                let rid = query_engine::edge_revision(g, m, None, chain, last)->0.revision_id;
                if !queries::was_found(had, rid) {
                    assert(found[had.len() as int].0 == rid);
                }
            }
        }
        assert forall|f: int| 0 <= f < found.len() implies {
            let x = #[trigger] found[f];
            x.1 is Some && edges.contains(x.1->0) && (query_engine::edge_revision(
                g,
                m,
                None,
                chain,
                x.1->0,
            ) matches Some(r) && r.revision_id == x.0) && (x.1->0.ty == EdgeType::Imports
                || !imports_only && (x.1->0.ty == EdgeType::Uses || x.1->0.ty == EdgeType::Calls
                || x.1->0.ty == EdgeType::Extends))
        } by {
            if f < had.len() {
                assert(found[f] == had[f]);
                lemma_last_or_front(edges, had[f].1->0);
            } else {
                lemma_last_or_front(edges, last);
            }
        }
    }
}

/// A list is cut to its first elements, as many as a limit allows, and no others are dropped.
pub proof fn law_limit_keeps_the_first<A>(s: Seq<A>, limit: nat, i: int)
    ensures
        queries::limited(s, limit).len() <= limit,
        s.len() <= limit ==> queries::limited(s, limit).len() == s.len(),
        s.len() > limit ==> queries::limited(s, limit).len() == limit,
        0 <= i < queries::limited(s, limit).len() ==> queries::limited(s, limit)[i] == s[i],
{
}

/// What is queued while the edges of a stop are looked at: what was queued before, and then one stop
/// for each edge whose path is kept and that leads somewhere.
proof fn lemma_edges_step<J: PathJudge>(
    env: WalkEnv<J>,
    f: Frontier,
    stop: Stop,
    edges: Seq<GraphEdge>,
)
    requires
        stop.depth < env.depth,
    ensures
        ({
            let q = query_engine::edges_step(env, f, stop, edges).queue;
            &&& q.len() >= f.queue.len()
            &&& forall|k: int| 0 <= k < f.queue.len() ==> #[trigger] q[k] == f.queue[k]
            &&& forall|k: int|
                f.queue.len() <= k < q.len() ==> queued_by(env, stop, edges, #[trigger] q[k])
            &&& forall|i: int|
                0 <= i < edges.len() && env.judge.keeps(stop.path.push(#[trigger] edges[i]))
                    && query_engine::edge_revision(
                    env.g,
                    env.m,
                    env.marks,
                    env.chain,
                    edges[i],
                ) is Some ==> exists|k: int|
                    0 <= k < q.len() && (#[trigger] q[k]).rid == query_engine::edge_revision(
                        env.g,
                        env.m,
                        env.marks,
                        env.chain,
                        edges[i],
                    )->0.revision_id
        }),
    decreases edges.len(),
{
    if edges.len() > 0 {
        let front = edges.drop_last();
        let last = edges.last();
        lemma_edges_step(env, f, stop, front);
        let before = query_engine::edges_step(env, f, stop, front).queue;
        let q = query_engine::edges_step(env, f, stop, edges).queue;
        assert forall|k: int| f.queue.len() <= k < q.len() implies queued_by(
            env,
            stop,
            edges,
            #[trigger] q[k],
        ) by {
            if k < before.len() {
                assert(q[k] == before[k]);
                let i = choose|i: int|
                    0 <= i < front.len() && leads_on(env, stop, #[trigger] front[i], before[k]);
                assert(edges[i] == front[i]);
            } else {
                assert(leads_on(env, stop, edges[edges.len() - 1], q[k]));
            }
        }
        assert forall|i: int|
            0 <= i < edges.len() && env.judge.keeps(stop.path.push(#[trigger] edges[i]))
                && query_engine::edge_revision(
                env.g,
                env.m,
                env.marks,
                env.chain,
                edges[i],
            ) is Some implies exists|k: int|
            0 <= k < q.len() && (#[trigger] q[k]).rid == query_engine::edge_revision(
                env.g,
                env.m,
                env.marks,
                env.chain,
                edges[i],
            )->0.revision_id by {
            if i < front.len() {
                assert(front[i] == edges[i]);
                let k = choose|k: int|
                    0 <= k < before.len() && (#[trigger] before[k]).rid
                        == query_engine::edge_revision(
                        env.g,
                        env.m,
                        env.marks,
                        env.chain,
                        front[i],
                    )->0.revision_id;
                assert(q[k] == before[k]);
            } else {
                assert(q[before.len() as int].rid == query_engine::edge_revision(
                    env.g,
                    env.m,
                    env.marks,
                    env.chain,
                    last,
                )->0.revision_id);
            }
        }
    }
}

/// An edge of a stop leads to another stop: its path is kept and goes on by the edge.
pub open spec fn leads_on<J: PathJudge>(env: WalkEnv<J>, stop: Stop, e: GraphEdge, to: Stop) -> bool {
    &&& env.judge.keeps(stop.path.push(e))
    &&& to.path == stop.path.push(e)
    &&& to.depth == stop.depth + 1
    &&& query_engine::edge_revision(env.g, env.m, env.marks, env.chain, e) is Some
    &&& query_engine::edge_revision(env.g, env.m, env.marks, env.chain, e)->0.revision_id == to.rid
}

/// Some edge leads to a stop.
spec fn queued_by<J: PathJudge>(env: WalkEnv<J>, stop: Stop, edges: Seq<GraphEdge>, to: Stop) -> bool {
    exists|i: int| 0 <= i < edges.len() && leads_on(env, stop, #[trigger] edges[i], to)
}

/// A hit, or a stop that is queued, is the start, or is reached from a hit that came before.
spec fn reached<J: PathJudge>(
    env: WalkEnv<J>,
    hits: Seq<(NodeRevisionId, Seq<GraphEdge>)>,
    n: int,
    rid: NodeRevisionId,
    path: Seq<GraphEdge>,
) -> bool {
    ||| rid == env.start && path.len() == 0
    ||| exists|h: int, e: GraphEdge|
        0 <= h < n && #[trigger] goes_on(env, hits[h].0, hits[h].1, e, rid, path)
}

/// A hit is followed along an edge to another revision.
pub open spec fn goes_on<J: PathJudge>(
    env: WalkEnv<J>,
    from: NodeRevisionId,
    by: Seq<GraphEdge>,
    e: GraphEdge,
    rid: NodeRevisionId,
    path: Seq<GraphEdge>,
) -> bool {
    &&& by.len() < env.depth
    &&& path == by.push(e)
    &&& env.judge.keeps(path)
    &&& query_engine::context_edges(env.g, env.chain, from).contains(e)
    &&& query_engine::edge_revision(env.g, env.m, env.marks, env.chain, e) is Some
    &&& query_engine::edge_revision(env.g, env.m, env.marks, env.chain, e)->0.revision_id == rid
    &&& env.g.rev(from) is Some
    &&& env.g.kind(env.g.rev(from)->0.identity_id) != Some(NodeKind::Stub)
}

/// A revision is on the chain.
spec fn on_chain<J>(env: WalkEnv<J>, rid: NodeRevisionId) -> bool {
    env.g.rev(rid) is Some && env.chain.contains(env.g.rev(rid)->0.branch_id)
}

/// A revision was hit.
pub open spec fn was_hit(hits: Seq<(NodeRevisionId, Seq<GraphEdge>)>, rid: NodeRevisionId) -> bool {
    exists|i: int| 0 <= i < hits.len() && (#[trigger] hits[i]).0 == rid
}

/// A revision waits in the queue.
spec fn waits(queue: Seq<Stop>, rid: NodeRevisionId) -> bool {
    exists|k: int| 0 <= k < queue.len() && (#[trigger] queue[k]).rid == rid
}

/// What holds of the queue of a walk.
spec fn queue_sound<J: PathJudge>(env: WalkEnv<J>, w: Walk) -> bool {
    forall|k: int|
        0 <= k < w.queue.len() ==> stop_sound(env, w.hits, #[trigger] w.queue[k])
}

/// What holds of a stop in the queue of a walk.
spec fn stop_sound<J: PathJudge>(
    env: WalkEnv<J>,
    hits: Seq<(NodeRevisionId, Seq<GraphEdge>)>,
    stop: Stop,
) -> bool {
    &&& stop.depth <= env.depth
    &&& stop.path.len() == stop.depth
    &&& stop.rid == env.start || env.judge.keeps(stop.path)
    &&& reached(env, hits, hits.len() as int, stop.rid, stop.path)
}

/// What was seen on the chain was hit.
spec fn seen_sound<J: PathJudge>(env: WalkEnv<J>, w: Walk) -> bool {
    forall|rid: NodeRevisionId| #[trigger]
        w.seen.contains(rid) && on_chain(env, rid) ==> was_hit(w.hits, rid)
}

/// What holds of the hits of a walk.
spec fn hits_sound<J: PathJudge>(
    env: WalkEnv<J>,
    hits: Seq<(NodeRevisionId, Seq<GraphEdge>)>,
) -> bool {
    forall|i: int|
        0 <= i < hits.len() ==> on_chain(env, (#[trigger] hits[i]).0) && hits[i].1.len()
            <= env.depth && reached(env, hits, i, hits[i].0, hits[i].1)
}

/// The edges of the hits were followed.
spec fn edges_sound<J: PathJudge>(env: WalkEnv<J>, w: Walk) -> bool {
    forall|i: int, e: GraphEdge|
        0 <= i < w.hits.len() && #[trigger] query_engine::context_edges(
            env.g,
            env.chain,
            w.hits[i].0,
        ).contains(e) ==> followed(env, w, i, e)
}

/// What holds all along a walk.
spec fn walk_sound<J: PathJudge>(env: WalkEnv<J>, w: Walk) -> bool {
    &&& queue_sound(env, w)
    &&& seen_sound(env, w)
    &&& hits_sound(env, w.hits)
    &&& edges_sound(env, w)
}

/// An edge of a hit was followed, where it is to be.
spec fn followed<J: PathJudge>(env: WalkEnv<J>, w: Walk, i: int, e: GraphEdge) -> bool {
    w.hits[i].1.len() < env.depth && env.g.kind(env.g.rev(w.hits[i].0)->0.identity_id) != Some(
        NodeKind::Stub,
    ) && env.judge.keeps(w.hits[i].1.push(e)) && query_engine::edge_revision(
        env.g,
        env.m,
        env.marks,
        env.chain,
        e,
    ) is Some ==> {
        let t = query_engine::edge_revision(env.g, env.m, env.marks, env.chain, e)->0.revision_id;
        w.seen.contains(t) || waits(w.queue, t)
    }
}

/// A stop is hit when it is visited.
spec fn hit_now<J>(env: WalkEnv<J>, w: Walk) -> bool {
    !w.seen.contains(w.queue[0].rid) && on_chain(env, w.queue[0].rid)
}

/// The edges of a stop are looked at when it is visited.
spec fn spreads<J>(env: WalkEnv<J>, w: Walk) -> bool {
    hit_now(env, w) && w.queue[0].depth < env.depth && env.g.kind(
        env.g.rev(w.queue[0].rid)->0.identity_id,
    ) != Some(NodeKind::Stub)
}

/// What a step comes to.
proof fn lemma_step_shape<J: PathJudge>(env: WalkEnv<J>, w: Walk)
    requires
        w.queue.len() > 0,
        queue_sound(env, w),
    ensures
        ({
            let n = query_engine::walk_step(env, w);
            let stop = w.queue[0];
            let rest = w.queue.skip(1);
            &&& n.seen == w.seen.insert(stop.rid)
            &&& n.hits == if hit_now(env, w) {
                w.hits.push((stop.rid, stop.path))
            } else {
                w.hits
            }
            &&& n.queue == if spreads(env, w) {
                query_engine::edges_step(
                    env,
                    Frontier { queue: rest, pruned: w.pruned },
                    stop,
                    query_engine::context_edges(env.g, env.chain, stop.rid),
                ).queue
            } else {
                rest
            }
        }),
{
    assert(stop_sound(env, w.hits, w.queue[0]));
}

/// What was reached stays reached when there are more hits.
proof fn lemma_reached_more<J: PathJudge>(
    env: WalkEnv<J>,
    hits: Seq<(NodeRevisionId, Seq<GraphEdge>)>,
    x: (NodeRevisionId, Seq<GraphEdge>),
    m: int,
    rid: NodeRevisionId,
    path: Seq<GraphEdge>,
)
    requires
        m <= hits.len(),
        reached(env, hits, m, rid, path),
    ensures
        reached(env, hits.push(x), m, rid, path),
        reached(env, hits.push(x), hits.len() as int + 1, rid, path),
{
    let more = hits.push(x);
    if !(rid == env.start && path.len() == 0) {
        let (h, e) = choose|h: int, e: GraphEdge|
            0 <= h < m && #[trigger] goes_on(env, hits[h].0, hits[h].1, e, rid, path);
        assert(more[h] == hits[h]);
        assert(goes_on(env, more[h].0, more[h].1, e, rid, path));
    }
}

/// A step keeps the hits sound.
proof fn lemma_step_hits<J: PathJudge>(env: WalkEnv<J>, w: Walk)
    requires
        w.queue.len() > 0,
        walk_sound(env, w),
    ensures
        hits_sound(env, query_engine::walk_step(env, w).hits),
{
    let n = query_engine::walk_step(env, w);
    lemma_step_shape(env, w);
    let stop = w.queue[0];
    assert(stop_sound(env, w.hits, w.queue[0]));
    if hit_now(env, w) {
        assert forall|i: int| 0 <= i < n.hits.len() implies on_chain(env, (#[trigger] n.hits[i]).0)
            && n.hits[i].1.len() <= env.depth && reached(env, n.hits, i, n.hits[i].0, n.hits[i].1) by {
            if i < w.hits.len() {
                assert(n.hits[i] == w.hits[i]);
                lemma_reached_more(
                    env,
                    w.hits,
                    (stop.rid, stop.path),
                    i,
                    w.hits[i].0,
                    w.hits[i].1,
                );
            } else {
                lemma_reached_more(env, w.hits, (stop.rid, stop.path), i, stop.rid, stop.path);
            }
        }
    }
}

/// A step keeps what was seen sound.
proof fn lemma_step_seen<J: PathJudge>(env: WalkEnv<J>, w: Walk)
    requires
        w.queue.len() > 0,
        walk_sound(env, w),
    ensures
        seen_sound(env, query_engine::walk_step(env, w)),
{
    let n = query_engine::walk_step(env, w);
    lemma_step_shape(env, w);
    assert forall|rid: NodeRevisionId| #[trigger] n.seen.contains(rid) && on_chain(
        env,
        rid,
    ) implies was_hit(n.hits, rid) by {
        if w.seen.contains(rid) {
            let i = choose|i: int| 0 <= i < w.hits.len() && (#[trigger] w.hits[i]).0 == rid;
            assert(n.hits[i].0 == rid);
        } else {
            assert(n.hits[w.hits.len() as int].0 == rid);
        }
    }
}

/// A step keeps the queue sound.
proof fn lemma_step_queue<J: PathJudge>(env: WalkEnv<J>, w: Walk)
    requires
        w.queue.len() > 0,
        walk_sound(env, w),
    ensures
        queue_sound(env, query_engine::walk_step(env, w)),
{
    let n = query_engine::walk_step(env, w);
    lemma_step_shape(env, w);
    let stop = w.queue[0];
    let rest = w.queue.skip(1);
    let edges = query_engine::context_edges(env.g, env.chain, stop.rid);
    assert(stop_sound(env, w.hits, w.queue[0]));
    if spreads(env, w) {
        lemma_edges_step(env, Frontier { queue: rest, pruned: w.pruned }, stop, edges);
    }
    assert forall|k: int| 0 <= k < n.queue.len() implies stop_sound(
        env,
        n.hits,
        #[trigger] n.queue[k],
    ) by {
        let s = n.queue[k];
        if k < rest.len() {
            assert(s == w.queue[k + 1]);
            assert(stop_sound(env, w.hits, w.queue[k + 1]));
            if hit_now(env, w) {
                lemma_reached_more(
                    env,
                    w.hits,
                    (stop.rid, stop.path),
                    w.hits.len() as int,
                    s.rid,
                    s.path,
                );
            }
        } else {
            assert(queued_by(env, stop, edges, s));
            let i = choose|i: int|
                0 <= i < edges.len() && leads_on(env, stop, #[trigger] edges[i], s);
            assert(edges.contains(edges[i]));
            let last = n.hits.len() - 1;
            assert(n.hits[last] == (stop.rid, stop.path));
            assert(goes_on(env, n.hits[last].0, n.hits[last].1, edges[i], s.rid, s.path));
            assert(reached(env, n.hits, n.hits.len() as int, s.rid, s.path));
        }
    }
}

/// A step takes only the front of the queue.
proof fn lemma_queue_kept<J: PathJudge>(env: WalkEnv<J>, w: Walk)
    requires
        w.queue.len() > 0,
        queue_sound(env, w),
    ensures
        query_engine::walk_step(env, w).queue.len() >= w.queue.len() - 1,
        forall|k: int|
            1 <= k < w.queue.len() ==> query_engine::walk_step(env, w).queue[k - 1]
                == #[trigger] w.queue[k],
{
    lemma_step_shape(env, w);
    let stop = w.queue[0];
    let rest = w.queue.skip(1);
    if spreads(env, w) {
        lemma_edges_step(
            env,
            Frontier { queue: rest, pruned: w.pruned },
            stop,
            query_engine::context_edges(env.g, env.chain, stop.rid),
        );
    }
    let q = query_engine::walk_step(env, w).queue;
    assert forall|k: int| 1 <= k < w.queue.len() implies q[k - 1] == #[trigger] w.queue[k] by {
        assert(rest[k - 1] == w.queue[k]);
    }
}

/// What was followed stays followed.
proof fn lemma_followed_before<J: PathJudge>(env: WalkEnv<J>, w: Walk, i: int, e: GraphEdge)
    requires
        w.queue.len() > 0,
        queue_sound(env, w),
        0 <= i < w.hits.len(),
        followed(env, w, i, e),
    ensures
        followed(env, query_engine::walk_step(env, w), i, e),
{
    let n = query_engine::walk_step(env, w);
    lemma_step_shape(env, w);
    lemma_queue_kept(env, w);
    assert(n.hits[i] == w.hits[i]);
    let to = query_engine::edge_revision(env.g, env.m, env.marks, env.chain, e);
    if to is Some {
        let t = to->0.revision_id;
        if waits(w.queue, t) {
            let k = choose|k: int| 0 <= k < w.queue.len() && (#[trigger] w.queue[k]).rid == t;
            if k > 0 {
                assert(n.queue[k - 1] == w.queue[k]);
                assert(waits(n.queue, t));
            } else {
                assert(n.seen.contains(t));
            }
        }
    }
}

/// The edges of a stop that is hit are followed.
proof fn lemma_followed_now<J: PathJudge>(env: WalkEnv<J>, w: Walk, e: GraphEdge)
    requires
        w.queue.len() > 0,
        queue_sound(env, w),
        hit_now(env, w),
        query_engine::context_edges(env.g, env.chain, w.queue[0].rid).contains(e),
    ensures
        followed(env, query_engine::walk_step(env, w), w.hits.len() as int, e),
{
    let n = query_engine::walk_step(env, w);
    lemma_step_shape(env, w);
    let stop = w.queue[0];
    let edges = query_engine::context_edges(env.g, env.chain, stop.rid);
    assert(stop_sound(env, w.hits, w.queue[0]));
    assert(n.hits[w.hits.len() as int] == (stop.rid, stop.path));
    if spreads(env, w) {
        lemma_edges_step(
            env,
            Frontier { queue: w.queue.skip(1), pruned: w.pruned },
            stop,
            edges,
        );
        let j = choose|j: int| 0 <= j < edges.len() && edges[j] == e;
        assert(edges[j] == e);
    }
}

/// A step follows the edges of what it hits.
proof fn lemma_step_edges<J: PathJudge>(env: WalkEnv<J>, w: Walk)
    requires
        w.queue.len() > 0,
        queue_sound(env, w),
        edges_sound(env, w),
    ensures
        edges_sound(env, query_engine::walk_step(env, w)),
{
    let n = query_engine::walk_step(env, w);
    lemma_step_shape(env, w);
    assert forall|i: int, e: GraphEdge|
        0 <= i < n.hits.len() && #[trigger] query_engine::context_edges(
            env.g,
            env.chain,
            n.hits[i].0,
        ).contains(e) implies followed(env, n, i, e) by {
        if i < w.hits.len() {
            assert(n.hits[i] == w.hits[i]);
            assert(query_engine::context_edges(env.g, env.chain, w.hits[i].0).contains(e));
            lemma_followed_before(env, w, i, e);
        } else {
            lemma_followed_now(env, w, e);
        }
    }
}

/// A walk is sound.
proof fn lemma_walk_sound<J: PathJudge>(env: WalkEnv<J>, steps: nat)
    ensures
        walk_sound(env, query_engine::walked(env, query_engine::walk_start(env.start), steps)),
    decreases steps,
{
    if steps > 0 {
        lemma_walk_sound(env, (steps - 1) as nat);
        let w = query_engine::walked(env, query_engine::walk_start(env.start), (steps - 1) as nat);
        if w.queue.len() > 0 {
            lemma_step_hits(env, w);
            lemma_step_seen(env, w);
            lemma_step_queue(env, w);
            lemma_step_edges(env, w);
        }
    }
}

/// A revision that an identity stands for is the one of its id, and it is on the chain.
proof fn lemma_stands_on_chain(
    g: GraphView,
    marks: Option<Map<Seq<char>, Seq<u8>>>,
    chain: Seq<BranchId>,
    iid: IdentityId,
)
    requires
        graph::ids_unique(g.revisions),
        query_engine::identity_revision(g, marks, chain, iid) is Some,
    ensures
        ({
            let r = query_engine::identity_revision(g, marks, chain, iid)->0;
            g.rev(r.revision_id) == Some(r) && chain.contains(r.branch_id)
        }),
{
    law_identity_stands_for_a_live_revision(g, marks, chain, iid);
    let r = query_engine::identity_revision(g, marks, chain, iid)->0;
    let k = choose|k: int| 0 <= k < g.revisions.len() && g.revisions[k] == r;
    let p = |x: RevisionView| x.revision_id == r.revision_id;
    assert forall|j: int| 0 <= j < k implies !p(#[trigger] g.revisions[j]) by {
        assert(g.revisions[j].revision_id != g.revisions[k].revision_id);
    }
    seqs::lemma_first_found(g.revisions, p, k);
}

/// A walk that has ended has met whatever its edges lead to: from each hit nearer than the depth that
/// is no stub, every call, import, use and base of the revision, and every import of its file, whose
/// path is kept and that leads to a revision, leads to a hit.
pub proof fn law_walk_meets_every_neighbour<J: PathJudge>(
    env: WalkEnv<J>,
    steps: nat,
    i: int,
    e: GraphEdge,
)
    requires
        graph::ids_unique(env.g.revisions),
        query_engine::walked(env, query_engine::walk_start(env.start), steps).queue.len() == 0,
        0 <= i < query_engine::walked(env, query_engine::walk_start(env.start), steps).hits.len(),
    ensures
        ({
            let hits = query_engine::walked(env, query_engine::walk_start(env.start), steps).hits;
            let from = hits[i].0;
            let path = hits[i].1;
            let edge_is_followed = env.g.out(from).contains(e) && (e.ty == EdgeType::Calls || e.ty
                == EdgeType::Imports || e.ty == EdgeType::Uses || e.ty == EdgeType::Extends)
                || edge_of_its_file(env.g, env.chain, from, e) && e.ty == EdgeType::Imports;
            env.g.rev(from) is Some && env.g.kind(env.g.rev(from)->0.identity_id) != Some(
                NodeKind::Stub,
            ) && path.len() < env.depth && edge_is_followed && env.judge.keeps(path.push(e))
                && query_engine::edge_revision(
                env.g,
                env.m,
                env.marks,
                env.chain,
                e,
            ) is Some ==> was_hit(
                hits,
                query_engine::edge_revision(
                    env.g,
                    env.m,
                    env.marks,
                    env.chain,
                    e,
                )->0.revision_id,
            )
        }),
{
    let w = query_engine::walked(env, query_engine::walk_start(env.start), steps);
    lemma_walk_sound(env, steps);
    law_context_edges(env.g, env.chain, w.hits[i].0, e);
    if query_engine::edge_revision(env.g, env.m, env.marks, env.chain, e) is Some {
        lemma_stands_on_chain(
            env.g,
            env.marks,
            env.chain,
            overrides::effective_target(env.m, env.chain, e),
        );
        let t = query_engine::edge_revision(env.g, env.m, env.marks, env.chain, e)->0.revision_id;
        assert(on_chain(env, t));
        if query_engine::context_edges(env.g, env.chain, w.hits[i].0).contains(e) {
            assert(followed(env, w, i, e));
        }
    }
}

/// A walk that has ended begins with its start, where that is on the chain, and every other hit is
/// reached from a hit before it, along one edge that context follows, by a path that is kept and no
/// longer than the depth.
pub proof fn law_walk_goes_step_by_step<J: PathJudge>(env: WalkEnv<J>, steps: nat, i: int)
    requires
        query_engine::walked(env, query_engine::walk_start(env.start), steps).queue.len() == 0,
    ensures
        ({
            let hits = query_engine::walked(env, query_engine::walk_start(env.start), steps).hits;
            &&& env.g.rev(env.start) is Some && env.chain.contains(
                env.g.rev(env.start)->0.branch_id,
            ) ==> was_hit(hits, env.start)
            &&& 0 <= i < hits.len() ==> {
                &&& env.g.rev(hits[i].0) is Some
                &&& env.chain.contains(env.g.rev(hits[i].0)->0.branch_id)
                &&& hits[i].1.len() <= env.depth
                &&& hits[i].0 == env.start && hits[i].1.len() == 0 || exists|h: int, e: GraphEdge|
                    0 <= h < i && #[trigger] goes_on(
                        env,
                        hits[h].0,
                        hits[h].1,
                        e,
                        hits[i].0,
                        hits[i].1,
                    )
            }
        }),
{
    lemma_walk_sound(env, steps);
    let w = query_engine::walked(env, query_engine::walk_start(env.start), steps);
    lemma_start_seen(env, steps);
    if steps > 0 {
        assert(w.seen.contains(env.start));
    }
    if 0 <= i < w.hits.len() {
        assert(reached(env, w.hits, i, w.hits[i].0, w.hits[i].1));
    }
}

/// After its first step a walk has seen its start.
proof fn lemma_start_seen<J: PathJudge>(env: WalkEnv<J>, steps: nat)
    ensures
        steps > 0 ==> query_engine::walked(
            env,
            query_engine::walk_start(env.start),
            steps,
        ).seen.contains(env.start),
    decreases steps,
{
    if steps > 1 {
        lemma_start_seen(env, (steps - 1) as nat);
    } else if steps == 1 {
        assert(query_engine::walked(env, query_engine::walk_start(env.start), 0)
            == query_engine::walk_start(env.start));
    }
}

} // verus!
