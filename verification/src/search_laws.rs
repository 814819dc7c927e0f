//! What searches of the graph find, told by the graph itself.

use crate::graph::{EdgeType, GraphEdge, GraphView, RevisionStatus, RevisionView};
use crate::hex;
use crate::ids;
use crate::ids::{BranchId, IdentityId, NodeRevisionId};
use crate::kv;
use crate::outcome_laws;
use crate::overrides;
use crate::queries;
use crate::queries::{ExplainCounts, Explanation, Found};
use crate::query_engine;
use crate::query_laws;
use crate::spans;
use crate::text;
use crate::text_laws;
use crate::tree_laws;
use vstd::prelude::*;

verus! {

/// A name holds another.
pub open spec fn holds_name(name: Seq<char>, needle: Seq<char>) -> bool {
    exists|at: int|
        0 <= at && at + needle.len() <= name.len() && #[trigger] name.subrange(at, at + needle.len()) == needle
}

proof fn lemma_holds_name(name: Seq<char>, needle: Seq<char>)
    ensures
        text::contains_text(name, needle) <==> holds_name(name, needle),
{
    if holds_name(name, needle) {
        let at = choose|at: int|
            0 <= at && at + needle.len() <= name.len() && #[trigger] name.subrange(at, at + needle.len())
                == needle;
        assert(text::occurs_at(name, needle, at));
    }
    if text::contains_text(name, needle) {
        let at = choose|at: int| text::occurs_at(name, needle, at);
        assert(name.subrange(at, at + needle.len()) == needle);
    }
}

/// The symbols that a search finds, before any limit: the revisions of the branch whose name holds the
/// text, each once and in the order of the graph.
pub proof fn law_named_symbols(revs: Seq<RevisionView>, branch: BranchId, needle: Seq<char>)
    ensures
        queries::named_among(revs, branch, needle) == revs.filter(
            |r: RevisionView| r.branch_id == branch && holds_name(r.qualified_name, needle),
        ),
    decreases revs.len(),
{
    reveal(Seq::filter);
    if revs.len() > 0 {
        law_named_symbols(revs.drop_last(), branch, needle);
        lemma_holds_name(revs.last().qualified_name, needle);
    }
}

/// Without a preference for files, a search finds the first of the symbols that its text names, at most
/// as many as were asked for; with it, the first of the same symbols in order of rank.
pub proof fn law_found_symbols(
    g: GraphView,
    branch: BranchId,
    needle: Seq<char>,
    limit: nat,
    prefer_file_hub: bool,
    i: int,
)
    ensures
        ({
            let all = g.revisions.filter(
                |r: RevisionView| r.branch_id == branch && holds_name(r.qualified_name, needle),
            );
            let r = queries::symbols_named(g, branch, needle, limit, prefer_file_hub);
            &&& r.len() == if all.len() <= limit {
                all.len()
            } else {
                limit
            }
            &&& 0 <= i < r.len() ==> r[i].1 is None
            &&& !prefer_file_hub && 0 <= i < r.len() ==> r[i].0 == all[i].revision_id
            &&& prefer_file_hub && 0 <= i < r.len() ==> r[i].0 == queries::by_rank(all, needle)[i].revision_id
        }),
{
    let all = queries::named_among(g.revisions, branch, needle);
    law_named_symbols(g.revisions, branch, needle);
    queries::law_ranked_symbols(all, needle);
    vstd::seq_lib::to_multiset_len(all);
    vstd::seq_lib::to_multiset_len(queries::by_rank(all, needle));
    assert(queries::by_rank(all, needle).len() == all.len());
}

/// The order of rank: what is named like its file comes first, then what has a name that ends with the
/// text, then the rest; of two in the same place the one with the shorter name comes first.
pub proof fn law_order_of_rank(s: Seq<RevisionView>, needle: Seq<char>, i: int, j: int)
    requires
        0 <= i < j < s.len(),
    ensures
        ({
            let r = queries::by_rank(s, needle);
            let hub_i = r[i].qualified_name == r[i].file_path;
            let hub_j = r[j].qualified_name == r[j].file_path;
            let ends_i = text::finishes_with(r[i].qualified_name, needle);
            let ends_j = text::finishes_with(r[j].qualified_name, needle);
            &&& r.len() == s.len()
            &&& hub_j ==> hub_i
            &&& !hub_i && ends_j ==> ends_i
            &&& hub_i == hub_j && (hub_i || ends_i == ends_j) ==> spans::byte_len(r[i].qualified_name)
                <= spans::byte_len(r[j].qualified_name)
        }),
{
    let r = queries::by_rank(s, needle);
    queries::law_ranked_symbols(s, needle);
    vstd::seq_lib::to_multiset_len(s);
    vstd::seq_lib::to_multiset_len(r);
    assert(r.len() == s.len());
    assert(queries::ranks_before(r[i], r[j], needle));
}

/// What is told of a revision that was found: who it is, where it is, and the edge it was found by; it
/// stands where the edge stands, if that is known.
pub proof fn law_told(r: RevisionView, e: GraphEdge)
    ensures
        queries::told(r, None).identity_hex == hex::hex_of(r.identity_id.0@),
        queries::told(r, None).revision_hex == hex::hex_of(r.revision_id.0@),
        queries::told(r, None).name == r.qualified_name,
        queries::told(r, None).path == r.file_path,
        queries::told(r, None).span == r.span,
        queries::told(r, None).edge_type is None,
        queries::told(r, Some(e)).identity_hex == hex::hex_of(r.identity_id.0@),
        queries::told(r, Some(e)).revision_hex == hex::hex_of(r.revision_id.0@),
        queries::told(r, Some(e)).name == r.qualified_name,
        queries::told(r, Some(e)).path == r.file_path,
        e.anchor.start_line > 0 ==> queries::told(r, Some(e)).span == e.anchor,
        e.anchor.start_line == 0 && e.anchor.start_col == 0 && e.anchor.end_line == 0 && e.anchor.end_col == 0
            ==> queries::told(r, Some(e)).span == r.span,
        queries::told(r, Some(e)).edge_type == Some(
            match e.ty {
                EdgeType::Calls => "Calls"@,
                EdgeType::Imports => "Imports"@,
                EdgeType::Extends => "Extends"@,
                EdgeType::Uses => "Uses"@,
                EdgeType::Configures => "Configures"@,
                EdgeType::CoLocated => "CoLocated"@,
                EdgeType::TestOf => "TestOf"@,
                EdgeType::RenamedFrom => "RenamedFrom"@,
            },
        ),
{
}

/// Of each revision that was found and that the graph knows, in the order in which they were found, what
/// is told of it.
pub proof fn law_all_are_told(g: GraphView, found: Seq<Found>, i: int)
    requires
        forall|k: int| 0 <= k < found.len() ==> g.rev((#[trigger] found[k]).0) is Some,
    ensures
        queries::told_all(g, found).len() == found.len(),
        0 <= i < found.len() ==> queries::told_all(g, found)[i] == queries::told(
            g.rev(found[i].0)->0,
            found[i].1,
        ),
    decreases found.len(),
{
    if found.len() > 0 {
        let front = found.drop_last();
        assert forall|k: int| 0 <= k < front.len() implies g.rev((#[trigger] front[k]).0) is Some by {
            assert(front[k] == found[k]);
        }
        law_all_are_told(g, front, i);
        assert(g.rev(found[found.len() - 1].0) is Some);
        if 0 <= i < front.len() {
            assert(front[i] == found[i]);
        }
    }
}

/// Nothing is told of a revision that the graph does not know.
pub proof fn law_unknown_is_not_told(g: GraphView, found: Seq<Found>, last: Found)
    requires
        g.rev(last.0) is None,
    ensures
        queries::told_all(g, found.push(last)) == queries::told_all(g, found),
{
    assert(found.push(last).drop_last() =~= found);
}

/// Which revision a query is about: the one that the id names, if it is on the branch; else the first of
/// the branch whose name holds the text; else none.
pub proof fn law_revision_of_a_query(
    g: GraphView,
    branch: BranchId,
    id: Option<Seq<char>>,
    symbol: Option<Seq<char>>,
    r: RevisionView,
)
    ensures
        ({
            let named = id is Some && hex::strict_id(id->0) is Some && g.rev(
                NodeRevisionId(ids::array_of(hex::strict_id(id->0)->0)),
            ) == Some(r) && r.branch_id == branch;
            let by_id = id is Some && hex::strict_id(id->0) is Some && (match g.rev(
                NodeRevisionId(ids::array_of(hex::strict_id(id->0)->0)),
            ) {
                Some(q) => q.branch_id == branch,
                None => false,
            });
            let all = g.revisions.filter(
                |q: RevisionView| q.branch_id == branch && holds_name(q.qualified_name, symbol->0),
            );
            let asked = queries::revision_asked(g, branch, id, symbol);
            &&& named ==> asked == Some(r)
            &&& !by_id && symbol is None ==> asked is None
            &&& !by_id && symbol is Some && all.len() == 0 ==> asked is None
            &&& !by_id && symbol is Some && all.len() > 0 ==> asked == Some(all[0])
        }),
{
    if let Some(needle) = symbol {
        law_named_symbols(g.revisions, branch, needle);
    }
}

/// A request about a revision is answered only for a revision of the branch, by its id.
pub proof fn law_revision_of_a_request(g: GraphView, branch: BranchId, id: Seq<char>, r: RevisionView)
    ensures
        queries::asked_about(g, branch, id) == Some(r) <==> hex::strict_id(id) is Some && g.rev(
            NodeRevisionId(ids::array_of(hex::strict_id(id)->0)),
        ) == Some(r) && r.branch_id == branch,
{
}

proof fn lemma_count(edges: Seq<GraphEdge>, p: spec_fn(GraphEdge) -> bool)
    requires
        edges.len() > 0,
    ensures
        edges.filter(p).len() == edges.drop_last().filter(p).len() + if p(edges.last()) {
            1nat
        } else {
            0nat
        },
{
    reveal(Seq::filter);
}

/// The edges that could lead to a definition are those of the three types; the ones that lead nowhere
/// are those of them behind which no live revision stands.
pub proof fn law_definition_edges_are_counted(
    g: GraphView,
    m: Map<Seq<char>, Seq<u8>>,
    chain: Seq<BranchId>,
    edges: Seq<GraphEdge>,
)
    ensures
        queries::candidates(edges) == edges.filter(
            |e: GraphEdge|
                e.ty == EdgeType::Calls || e.ty == EdgeType::Imports || e.ty == EdgeType::Extends,
        ).len(),
        query_engine::unresolved_among(g, m, chain, edges) == edges.filter(
            |e: GraphEdge|
                (e.ty == EdgeType::Calls || e.ty == EdgeType::Imports || e.ty == EdgeType::Extends)
                    && query_engine::edge_revision(g, m, None, chain, e) is None,
        ).len(),
    decreases edges.len(),
{
    let p = |e: GraphEdge|
        e.ty == EdgeType::Calls || e.ty == EdgeType::Imports || e.ty == EdgeType::Extends;
    let q = |e: GraphEdge|
        (e.ty == EdgeType::Calls || e.ty == EdgeType::Imports || e.ty == EdgeType::Extends)
            && query_engine::edge_revision(g, m, None, chain, e) is None;
    if edges.len() > 0 {
        law_definition_edges_are_counted(g, m, chain, edges.drop_last());
        lemma_count(edges, p);
        lemma_count(edges, q);
    } else {
        reveal(Seq::filter);
    }
}

/// Why there is no definition: that calls were found by expressions is said where it is so; that no edge
/// leads to a definition where there is none; else that a target has no live revision, where there is
/// such an edge.
pub proof fn law_reasons(
    g: GraphView,
    m: Map<Seq<char>, Seq<u8>>,
    chain: Seq<BranchId>,
    edges: Seq<GraphEdge>,
    by_expressions: bool,
    word: Seq<char>,
)
    ensures
        ({
            let r = queries::no_definition_reasons(g, m, chain, edges, by_expressions);
            let some = exists|i: int|
                0 <= i < edges.len() && ((#[trigger] edges[i]).ty == EdgeType::Calls || edges[i].ty
                    == EdgeType::Imports || edges[i].ty == EdgeType::Extends);
            let lost = exists|i: int|
                0 <= i < edges.len() && ((#[trigger] edges[i]).ty == EdgeType::Calls || edges[i].ty
                    == EdgeType::Imports || edges[i].ty == EdgeType::Extends) && query_engine::edge_revision(
                    g,
                    m,
                    None,
                    chain,
                    edges[i],
                ) is None;
            r.contains(word) <==> {
                ||| by_expressions && word == "index_mode_regex_limits_call_precision"@
                ||| !some && word == "no_outbound_definition_edges"@
                ||| lost && word == "target_identity_without_active_revision"@
            }
        }),
{
    let p = |e: GraphEdge|
        e.ty == EdgeType::Calls || e.ty == EdgeType::Imports || e.ty == EdgeType::Extends;
    let q = |e: GraphEdge|
        (e.ty == EdgeType::Calls || e.ty == EdgeType::Imports || e.ty == EdgeType::Extends)
            && query_engine::edge_revision(g, m, None, chain, e) is None;
    law_definition_edges_are_counted(g, m, chain, edges);
    lemma_some_kept(edges, p);
    lemma_some_kept(edges, q);
    let a = if by_expressions {
        seq!["index_mode_regex_limits_call_precision"@]
    } else {
        Seq::empty()
    };
    tree_laws::lemma_both(a, queries::edge_reasons(g, m, chain, edges), word);
    tree_laws::lemma_one("index_mode_regex_limits_call_precision"@, word);
    tree_laws::lemma_one("no_outbound_definition_edges"@, word);
    tree_laws::lemma_one("target_identity_without_active_revision"@, word);
}

proof fn lemma_some_kept<A>(s: Seq<A>, p: spec_fn(A) -> bool)
    ensures
        s.filter(p).len() > 0 <==> exists|i: int| 0 <= i < s.len() && p(#[trigger] s[i]),
    decreases s.len(),
{
    reveal(Seq::filter);
    if s.len() > 0 {
        let front = s.drop_last();
        lemma_some_kept(front, p);
        if exists|i: int| 0 <= i < s.len() && p(#[trigger] s[i]) {
            let i = choose|i: int| 0 <= i < s.len() && p(#[trigger] s[i]);
            if i < front.len() {
                assert(p(front[i]));
            }
        }
        if exists|i: int| 0 <= i < front.len() && p(#[trigger] front[i]) {
            let i = choose|i: int| 0 <= i < front.len() && p(#[trigger] front[i]);
            assert(p(s[i]));
        }
        if p(s.last()) {
            assert(p(s[s.len() - 1]));
        }
    }
}

/// How many revisions of an identity stand on a branch in a status.
pub proof fn law_revisions_are_counted(
    revs: Seq<RevisionView>,
    branch: BranchId,
    iid: IdentityId,
    status: RevisionStatus,
)
    ensures
        queries::in_status_count(revs, branch, iid, status) == revs.filter(
            |r: RevisionView| r.branch_id == branch && r.identity_id == iid && r.status == status,
        ).len(),
    decreases revs.len(),
{
    reveal(Seq::filter);
    if revs.len() > 0 {
        law_revisions_are_counted(revs.drop_last(), branch, iid, status);
    }
}

/// What an explanation warns of.
pub proof fn law_explained_modes(counts: ExplainCounts, word: Seq<char>)
    ensures
        queries::explain_modes(counts).contains(word) <==> {
            ||| counts.stale_count > 0 && word == "stale_graph_nodes"@
            ||| counts.pruned_low_confidence_count > 0 && word == "dangling_edges"@
            ||| counts.speculative_count > 0 && word == "orphaned_revisions"@
        },
{
    let a = if counts.stale_count > 0 {
        seq!["stale_graph_nodes"@]
    } else {
        Seq::empty()
    };
    let b = if counts.pruned_low_confidence_count > 0 {
        seq!["dangling_edges"@]
    } else {
        Seq::empty()
    };
    let c = if counts.speculative_count > 0 {
        seq!["orphaned_revisions"@]
    } else {
        Seq::empty()
    };
    tree_laws::lemma_both(a + b, c, word);
    tree_laws::lemma_both(a, b, word);
    tree_laws::lemma_one("stale_graph_nodes"@, word);
    tree_laws::lemma_one("dangling_edges"@, word);
    tree_laws::lemma_one("orphaned_revisions"@, word);
}

/// What an explanation counts: the tombstones and the orphans of the symbol on the branch, the edges that
/// lead nowhere and what the walk left out, what leaves the revision, and who refers to the symbol.
pub proof fn law_explanation(
    g: GraphView,
    m: Map<Seq<char>, Seq<u8>>,
    branch: BranchId,
    chain: Seq<BranchId>,
    rev: RevisionView,
    budget_tokens: nat,
    pruned: nat,
    x: Explanation,
)
    requires
        queries::explained(g, m, branch, chain, rev, budget_tokens, pruned, x),
    ensures
        x.counts.stale_count == g.revisions.filter(
            |r: RevisionView|
                r.branch_id == branch && r.identity_id == rev.identity_id && r.status
                    == RevisionStatus::Tombstone,
        ).len(),
        x.counts.speculative_count == g.revisions.filter(
            |r: RevisionView|
                r.branch_id == branch && r.identity_id == rev.identity_id && r.status
                    == RevisionStatus::Orphaned,
        ).len(),
        x.counts.pruned_low_confidence_count < usize::MAX ==> x.counts.pruned_low_confidence_count == pruned
            + query_engine::context_edges(g, chain, rev.revision_id).filter(
            |e: GraphEdge|
                (e.ty == EdgeType::Calls || e.ty == EdgeType::Imports || e.ty == EdgeType::Extends)
                    && query_engine::edge_revision(g, m, None, chain, e) is None,
        ).len(),
        x.outbound == g.out(rev.revision_id).len(),
        x.inbound == g.sources_targeting(rev.identity_id).len(),
{
    law_revisions_are_counted(g.revisions, branch, rev.identity_id, RevisionStatus::Tombstone);
    law_revisions_are_counted(g.revisions, branch, rev.identity_id, RevisionStatus::Orphaned);
    law_definition_edges_are_counted(
        g,
        m,
        chain,
        query_engine::context_edges(g, chain, rev.revision_id),
    );
}

proof fn lemma_arriving(
    m: Map<Seq<char>, Seq<u8>>,
    chain: Seq<BranchId>,
    identity: IdentityId,
    got: Seq<GraphEdge>,
    edges: Seq<GraphEdge>,
    e: GraphEdge,
)
    ensures
        ({
            let r = query_engine::arriving(m, chain, identity, got, edges);
            &&& got.contains(e) ==> r.contains(e)
            &&& r.contains(e) ==> got.contains(e) || edges.contains(e) && overrides::effective_target(
                m,
                chain,
                e,
            ) == identity
            &&& edges.contains(e) && overrides::effective_target(m, chain, e) == identity ==> exists|i: int|
                0 <= i < r.len() && (#[trigger] r[i]).edge_id == e.edge_id
            &&& query_engine::has_edge_id(got, e.edge_id) ==> query_engine::has_edge_id(r, e.edge_id)
        }),
    decreases edges.len(),
{
    if edges.len() > 0 {
        let front = edges.drop_last();
        let l = edges.last();
        let a = query_engine::arriving(m, chain, identity, got, front);
        lemma_arriving(m, chain, identity, got, front, e);
        tree_laws::lemma_ends(edges, e);
        let r = query_engine::arriving(m, chain, identity, got, edges);
        if query_engine::edge_arrives(m, chain, l, identity) && !query_engine::has_edge_id(a, l.edge_id) {
            assert(r =~= a + seq![l]);
            tree_laws::lemma_both(a, seq![l], e);
            tree_laws::lemma_one(l, e);
            if query_engine::has_edge_id(a, e.edge_id) {
                let i = choose|i: int| 0 <= i < a.len() && (#[trigger] a[i]).edge_id == e.edge_id;
                assert(r[i].edge_id == e.edge_id);
            }
            assert(r[a.len() as int] == l);
            if edges.contains(e) && overrides::effective_target(m, chain, e) == identity && front.contains(e) {
                let i = choose|i: int| 0 <= i < a.len() && (#[trigger] a[i]).edge_id == e.edge_id;
                assert(r[i].edge_id == e.edge_id);
            }
        }
    }
}

proof fn lemma_arriving_from(
    g: GraphView,
    m: Map<Seq<char>, Seq<u8>>,
    marks: Option<Map<Seq<char>, Seq<u8>>>,
    chain: Seq<BranchId>,
    identity: IdentityId,
    sources: Seq<IdentityId>,
    e: GraphEdge,
)
    ensures
        ({
            let r = query_engine::arriving_from(g, m, marks, chain, identity, sources);
            &&& r.contains(e) ==> overrides::effective_target(m, chain, e) == identity
            &&& forall|s: IdentityId|
                sources.contains(s) && (#[trigger] query_engine::identity_revision(g, marks, chain, s)) is Some
                    && g.out(query_engine::identity_revision(g, marks, chain, s)->0.revision_id).contains(e)
                    && overrides::effective_target(m, chain, e) == identity ==> query_engine::has_edge_id(
                    r,
                    e.edge_id,
                )
        }),
    decreases sources.len(),
{
    if sources.len() > 0 {
        let front = sources.drop_last();
        let a = query_engine::arriving_from(g, m, marks, chain, identity, front);
        lemma_arriving_from(g, m, marks, chain, identity, front, e);
        if let Some(src) = query_engine::identity_revision(g, marks, chain, sources.last()) {
            lemma_arriving(m, chain, identity, a, g.out(src.revision_id), e);
        }
        assert forall|s: IdentityId|
            sources.contains(s) && (#[trigger] query_engine::identity_revision(g, marks, chain, s)) is Some
                && g.out(query_engine::identity_revision(g, marks, chain, s)->0.revision_id).contains(e)
                && overrides::effective_target(m, chain, e) == identity implies query_engine::has_edge_id(
            query_engine::arriving_from(g, m, marks, chain, identity, sources),
            e.edge_id,
        ) by {
            tree_laws::lemma_ends(sources, s);
        }
    }
}

proof fn lemma_by_override(
    g: GraphView,
    m: Map<Seq<char>, Seq<u8>>,
    chain: Seq<BranchId>,
    identity: IdentityId,
    got: Seq<GraphEdge>,
    list: Seq<(BranchId, NodeRevisionId, [u8; 16])>,
    e: GraphEdge,
)
    ensures
        ({
            let r = query_engine::arriving_by_override(g, m, chain, identity, got, list);
            &&& r.contains(e) ==> got.contains(e) || overrides::effective_target(m, chain, e) == identity
            &&& query_engine::has_edge_id(got, e.edge_id) ==> query_engine::has_edge_id(r, e.edge_id)
        }),
    decreases list.len(),
{
    if list.len() > 0 {
        let x = list.last();
        let a = query_engine::arriving_by_override(g, m, chain, identity, got, list.drop_last());
        lemma_by_override(g, m, chain, identity, got, list.drop_last(), e);
        lemma_arriving(m, chain, identity, a, query_engine::with_id(g.out(x.1), x.2), e);
    }
}

/// The edges that arrive at a symbol as a chain of branches sees it: each of them leads there; and of
/// each source that has some edge to the symbol, every edge that leads there is among them, or another
/// with its id.
pub proof fn law_inbound_edges(
    g: GraphView,
    m: Map<Seq<char>, Seq<u8>>,
    marks: Option<Map<Seq<char>, Seq<u8>>>,
    chain: Seq<BranchId>,
    identity: IdentityId,
    r: Seq<GraphEdge>,
    s: IdentityId,
    e: GraphEdge,
)
    requires
        query_engine::inbound(g, m, marks, chain, identity, r),
    ensures
        r.contains(e) ==> overrides::effective_target(m, chain, e) == identity,
        g.sources_targeting(identity).contains(s) && query_engine::identity_revision(g, marks, chain, s) is Some
            && g.out(query_engine::identity_revision(g, marks, chain, s)->0.revision_id).contains(e)
            && overrides::effective_target(m, chain, e) == identity ==> exists|i: int|
            0 <= i < r.len() && (#[trigger] r[i]).edge_id == e.edge_id,
{
    let list = choose|list: Seq<(BranchId, NodeRevisionId, [u8; 16])>| #[trigger]
        overrides::retargeted(m, identity, list) && r == query_engine::arriving_by_override(
            g,
            m,
            chain,
            identity,
            query_engine::arriving_from(g, m, marks, chain, identity, g.sources_targeting(identity)),
            list,
        );
    lemma_arriving_from(g, m, marks, chain, identity, g.sources_targeting(identity), e);
    lemma_by_override(
        g,
        m,
        chain,
        identity,
        query_engine::arriving_from(g, m, marks, chain, identity, g.sources_targeting(identity)),
        list,
        e,
    );
}

/// A bound symbol that a text names: those of the pairs whose revision is on the branch and has a name
/// that holds the text, in the order of the pairs.
pub proof fn law_bound_symbols(
    g: GraphView,
    pairs: Seq<(IdentityId, NodeRevisionId)>,
    branch: BranchId,
    needle: Seq<char>,
    rid: NodeRevisionId,
)
    ensures
        queries::bound_named(g, pairs, branch, needle).contains((rid, None)) <==> exists|i: int|
            0 <= i < pairs.len() && (#[trigger] pairs[i]).1 == rid && g.rev(rid) is Some && g.rev(
                rid,
            )->0.branch_id == branch && holds_name(g.rev(rid)->0.qualified_name, needle),
    decreases pairs.len(),
{
    if pairs.len() > 0 {
        let front = pairs.drop_last();
        let a = queries::bound_named(g, front, branch, needle);
        let l = pairs.last();
        law_bound_symbols(g, front, branch, needle, rid);
        if let Some(r) = g.rev(l.1) {
            lemma_holds_name(r.qualified_name, needle);
            if queries::names_it(r, branch, needle) {
                let f: Found = (l.1, None);
                assert(a.push(f) =~= a + seq![f]);
                tree_laws::lemma_both(a, seq![f], (rid, None));
                tree_laws::lemma_one(f, (rid, None));
            }
        }
        assert forall|i: int| 0 <= i < front.len() implies #[trigger] front[i] == pairs[i] by {}
        assert(pairs[pairs.len() - 1] == l);
        if exists|i: int|
            0 <= i < front.len() && (#[trigger] front[i]).1 == rid && g.rev(rid) is Some && g.rev(
                rid,
            )->0.branch_id == branch && holds_name(g.rev(rid)->0.qualified_name, needle) {
            let i = choose|i: int|
                0 <= i < front.len() && (#[trigger] front[i]).1 == rid && g.rev(rid) is Some && g.rev(
                    rid,
                )->0.branch_id == branch && holds_name(g.rev(rid)->0.qualified_name, needle);
            assert(pairs[i].1 == rid);
        }
        if exists|i: int|
            0 <= i < pairs.len() && (#[trigger] pairs[i]).1 == rid && g.rev(rid) is Some && g.rev(
                rid,
            )->0.branch_id == branch && holds_name(g.rev(rid)->0.qualified_name, needle) {
            let i = choose|i: int|
                0 <= i < pairs.len() && (#[trigger] pairs[i]).1 == rid && g.rev(rid) is Some && g.rev(
                    rid,
                )->0.branch_id == branch && holds_name(g.rev(rid)->0.qualified_name, needle);
            if i < front.len() {
                assert(front[i].1 == rid);
            } else {
                assert(l.1 == rid);
            }
        }
    }
}

/// A path as it is asked for: without space round it, with slashes, and without a leading `./`.
pub proof fn law_plain_path(path: Seq<char>, rest: Seq<char>)
    ensures
        text::replaced(text::trimmed(path), '\\', '/') == "./"@ + rest ==> queries::plain_path(path) == rest,
        !text::begins_with(text::replaced(text::trimmed(path), '\\', '/'), "./"@) ==> queries::plain_path(path)
            == text::replaced(text::trimmed(path), '\\', '/'),
{
    reveal_strlit("./");
    assert(("./"@ + rest).skip(2) =~= rest);
    text_laws::law_parts_of_texts(Seq::empty(), "./"@, rest, rest);
}

proof fn lemma_taken_in(
    g: GraphView,
    m: Map<Seq<char>, Seq<u8>>,
    chain: Seq<BranchId>,
    identity: IdentityId,
    got: Seq<GraphEdge>,
    list: Seq<(BranchId, NodeRevisionId, [u8; 16])>,
    x: (BranchId, NodeRevisionId, [u8; 16]),
    e: GraphEdge,
)
    requires
        list.contains(x),
        chain.contains(x.0),
        g.out(x.1).contains(e),
        e.edge_id == x.2,
        overrides::effective_target(m, chain, e) == identity,
    ensures
        query_engine::has_edge_id(
            query_engine::arriving_by_override(g, m, chain, identity, got, list),
            e.edge_id,
        ),
    decreases list.len(),
{
    let front = list.drop_last();
    let l = list.last();
    let a = query_engine::arriving_by_override(g, m, chain, identity, got, front);
    let edges = query_engine::with_id(g.out(l.1), l.2);
    lemma_arriving(m, chain, identity, a, edges, e);
    tree_laws::lemma_ends(list, x);
    if front.contains(x) {
        lemma_taken_in(g, m, chain, identity, got, front, x, e);
    } else {
        query_laws::lemma_filter_has(g.out(l.1), |d: GraphEdge| d.edge_id == l.2, e);
    }
}

proof fn lemma_from_chain(
    g: GraphView,
    m: Map<Seq<char>, Seq<u8>>,
    chain: Seq<BranchId>,
    identity: IdentityId,
    got: Seq<GraphEdge>,
    list: Seq<(BranchId, NodeRevisionId, [u8; 16])>,
    e: GraphEdge,
)
    requires
        query_engine::arriving_by_override(g, m, chain, identity, got, list).contains(e),
        !got.contains(e),
    ensures
        exists|x: (BranchId, NodeRevisionId, [u8; 16])| #[trigger]
            list.contains(x) && chain.contains(x.0) && g.out(x.1).contains(e) && e.edge_id == x.2,
    decreases list.len(),
{
    if list.len() > 0 {
        let front = list.drop_last();
        let l = list.last();
        let a = query_engine::arriving_by_override(g, m, chain, identity, got, front);
        tree_laws::lemma_ends(list, l);
        if a.contains(e) {
            lemma_from_chain(g, m, chain, identity, got, front, e);
            let x = choose|x: (BranchId, NodeRevisionId, [u8; 16])| #[trigger]
                front.contains(x) && chain.contains(x.0) && g.out(x.1).contains(e) && e.edge_id == x.2;
            tree_laws::lemma_ends(list, x);
        } else {
            lemma_arriving(m, chain, identity, a, query_engine::with_id(g.out(l.1), l.2), e);
            query_laws::lemma_filter_has(g.out(l.1), |d: GraphEdge| d.edge_id == l.2, e);
        }
    }
}

/// A key tells that a branch of the chain has led an edge elsewhere.
pub open spec fn leads_from_chain(g: GraphView, chain: Seq<BranchId>, k: Seq<char>, e: GraphEdge) -> bool {
    match overrides::override_of(k) {
        Some(x) => chain.contains(x.0) && g.out(x.1).contains(e) && e.edge_id == x.2,
        None => false,
    }
}

/// An edge that a branch of the chain has led to a symbol arrives there, or another with its id does; an
/// edge that only a branch off the chain has led there does not arrive on that account.
pub proof fn law_edges_led_elsewhere(
    g: GraphView,
    m: Map<Seq<char>, Seq<u8>>,
    marks: Option<Map<Seq<char>, Seq<u8>>>,
    chain: Seq<BranchId>,
    identity: IdentityId,
    r: Seq<GraphEdge>,
    branch: BranchId,
    source: NodeRevisionId,
    e: GraphEdge,
)
    requires
        query_engine::inbound(g, m, marks, chain, identity, r),
    ensures
        chain.contains(branch) && g.out(source).contains(e) && m.contains_key(
            overrides::override_key(branch, source, e.edge_id),
        ) && m[overrides::override_key(branch, source, e.edge_id)] == identity.0@ && overrides::effective_target(
            m,
            chain,
            e,
        ) == identity ==> exists|i: int| 0 <= i < r.len() && (#[trigger] r[i]).edge_id == e.edge_id,
        r.contains(e) ==> query_engine::arriving_from(
            g,
            m,
            marks,
            chain,
            identity,
            g.sources_targeting(identity),
        ).contains(e) || exists|k: Seq<char>| #[trigger]
            m.contains_key(k) && m[k] == identity.0@ && leads_from_chain(g, chain, k, e),
{
    let got = query_engine::arriving_from(g, m, marks, chain, identity, g.sources_targeting(identity));
    let list = choose|list: Seq<(BranchId, NodeRevisionId, [u8; 16])>| #[trigger]
        overrides::retargeted(m, identity, list) && r == query_engine::arriving_by_override(
            g,
            m,
            chain,
            identity,
            got,
            list,
        );
    let rows = choose|rows: Seq<(String, Vec<u8>)>| #[trigger]
        kv::scanned(m, "eto:"@, rows) && list == overrides::retargeted_in(rows, identity);
    let x = (branch, source, e.edge_id);
    let key = overrides::override_key(branch, source, e.edge_id);
    overrides::lemma_override_key(branch, source, e.edge_id);
    outcome_laws::law_retargeted_edges(rows, identity, x);
    if chain.contains(branch) && g.out(source).contains(e) && m.contains_key(key) && m[key] == identity.0@
        && overrides::effective_target(m, chain, e) == identity {
        let i = choose|i: int| 0 <= i < rows.len() && (#[trigger] rows[i]).0@ == key;
        assert(rows.contains(rows[i]) && rows[i].1@ == identity.0@);
        lemma_taken_in(g, m, chain, identity, got, list, x, e);
    }
    if r.contains(e) && !got.contains(e) {
        lemma_from_chain(g, m, chain, identity, got, list, e);
        let y = choose|y: (BranchId, NodeRevisionId, [u8; 16])| #[trigger]
            list.contains(y) && chain.contains(y.0) && g.out(y.1).contains(e) && e.edge_id == y.2;
        outcome_laws::law_retargeted_edges(rows, identity, y);
        let row = choose|row: (String, Vec<u8>)| #[trigger]
            rows.contains(row) && row.1@ == identity.0@ && overrides::override_of(row.0@) == Some(y);
        let j = choose|j: int| 0 <= j < rows.len() && rows[j] == row;
        assert(m.contains_pair(rows[j].0@, rows[j].1@));
        assert(m.contains_key(row.0@));
    }
}

/// What the notes on a revision tell, each number behind its name.
pub proof fn law_notes_on_a_revision(outbound: nat, inbound: nat, budget: nat, c: ExplainCounts)
    ensures
        queries::explain_notes(outbound, inbound, budget, c) == "axes \u{a7}01.2; outbound_edges="@ + hex::decimal(
            outbound,
        ) + "; inbound_source_identities="@ + hex::decimal(inbound) + "; budget_tokens="@ + hex::decimal(budget)
            + " (char/4 tokenizer for build_context); tombstone_rows_for_identity="@ + hex::decimal(
            c.stale_count as nat,
        ) + "; orphaned_rows_for_identity="@ + hex::decimal(c.speculative_count as nat)
            + "; unresolved_edge_targets="@ + hex::decimal(c.pruned_low_confidence_count as nat),
{
}

} // verus!
