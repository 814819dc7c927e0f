//! Questions to the graph: symbols by name, references, callers, dependencies, imports.

use crate::bindings;
use crate::cardinality;
use crate::cardinality::edge_type_text;
use crate::codec;
use crate::file_index::add_name;
use crate::graph;
use crate::graph::{
    EdgeType, GraphEdge, GraphView, InMemoryGraph, NodeRevision, RevisionStatus, RevisionView,
    SourceSpan,
};
use crate::hex;
use crate::hex::{decimal_text, hex16, parse_strict_id};
use crate::ids;
use crate::ids::{BranchId, IdentityId, NodeRevisionId};
use crate::kv::MemoryKv;
use crate::merge_branch;
use crate::merge_branch::merge_branch;
use crate::merge_gate;
use crate::merge_gate::MergeRecoveryGate;
use crate::merge_lock;
use crate::merge_lock::merge_lock_holder;
use crate::overrides;
use crate::overrides::EdgeTargetOverrideStore;
use crate::query_engine;
use crate::query_engine::{
    ExpandContextResult, PathJudge, count_pruned_expand_neighbors,
    count_unresolved_definition_edges, expand_context_bfs, file_hub_revision_for_path,
    outbound_context_edges, resolve_definition_target, resolve_edge_target,
};
use crate::revision_cow;
use crate::revision_cow::Layer;
use crate::security::AuthError;
use crate::spans;
use crate::spans::char_width;
use crate::syntax;
use crate::text;
use crate::text::{
    append_text, chars_of, chars_replace, cut, owned, same_text, text_begins_with, text_contains,
    text_finishes_with, text_of, text_trim,
};
use crate::time_travel;
use crate::time_travel::overlay_at_wal_log_at;
use vstd::prelude::*;

verus! {

/// What a question found: a revision, and the edge by which it was found, if any.
pub type Found = (NodeRevisionId, Option<GraphEdge>);

/// A symbol that was found, as it is told.
#[derive(Debug)]
pub struct SymbolHit {
    pub identity_id_hex: String,
    pub revision_id_hex: String,
    pub qualified_name: String,
    pub file_path: String,
    pub start_line: u32,
    pub start_col: u32,
    pub end_line: u32,
    pub end_col: u32,
    /// The type of the edge by which the symbol was found.
    pub edge_type: Option<String>,
}

/// What a symbol that was found holds.
pub struct HitView {
    pub identity_hex: Seq<char>,
    pub revision_hex: Seq<char>,
    pub name: Seq<char>,
    pub path: Seq<char>,
    pub span: SourceSpan,
    pub edge_type: Option<Seq<char>>,
}

impl View for SymbolHit {
    type V = HitView;

    open spec fn view(&self) -> HitView {
        HitView {
            identity_hex: self.identity_id_hex@,
            revision_hex: self.revision_id_hex@,
            name: self.qualified_name@,
            path: self.file_path@,
            span: SourceSpan {
                start_line: self.start_line,
                start_col: self.start_col,
                end_line: self.end_line,
                end_col: self.end_col,
            },
            edge_type: syntax::text_view(self.edge_type),
        }
    }
}

/// How a revision is told: where it stands, or where the edge to it does.
pub open spec fn told(r: RevisionView, edge: Option<GraphEdge>) -> HitView {
    HitView {
        identity_hex: hex::hex_of(r.identity_id.0@),
        revision_hex: hex::hex_of(r.revision_id.0@),
        name: r.qualified_name,
        path: r.file_path,
        span: match edge {
            Some(e) => if e.anchor == graph::unknown_span() {
                r.span
            } else {
                e.anchor
            },
            None => r.span,
        },
        edge_type: match edge {
            Some(e) => Some(cardinality::name_of_type(e.ty)),
            None => None,
        },
    }
}

/// Tells of a revision at a span.
fn hit_from_span(rev: &NodeRevision, span: SourceSpan, edge_type: Option<String>) -> (r: SymbolHit)
    ensures
        r@ == (HitView {
            identity_hex: hex::hex_of(rev.identity_id.0@),
            revision_hex: hex::hex_of(rev.revision_id.0@),
            name: rev.qualified_name@,
            path: rev.file_path@,
            span,
            edge_type: syntax::text_view(edge_type),
        }),
{
    SymbolHit {
        identity_id_hex: hex16(&rev.identity_id.0),
        revision_id_hex: hex16(&rev.revision_id.0),
        qualified_name: owned(rev.qualified_name.as_str()),
        file_path: owned(rev.file_path.as_str()),
        start_line: span.start_line,
        start_col: span.start_col,
        end_line: span.end_line,
        end_col: span.end_col,
        edge_type,
    }
}

/// Tells of a revision.
pub fn hit_from_rev(rev: &NodeRevision) -> (r: SymbolHit)
    ensures
        r@ == told(rev@, None),
{
    hit_from_span(rev, rev.span, None)
}

/// Tells of a revision that was found by an edge.
pub fn hit_from_rev_and_edge(rev: &NodeRevision, edge: &GraphEdge) -> (r: SymbolHit)
    ensures
        r@ == told(rev@, Some(*edge)),
{
    let span = if edge.anchor.is_unknown() {
        rev.span
    } else {
        edge.anchor
    };
    hit_from_span(rev, span, Some(owned(edge_type_text(edge.ty))))
}

/// What hits hold.
pub open spec fn hit_views(v: Seq<SymbolHit>) -> Seq<HitView> {
    v.map_values(|h: SymbolHit| h@)
}

/// How what was found is told; what the graph does not hold is left out.
pub open spec fn told_all(g: GraphView, found: Seq<Found>) -> Seq<HitView>
    decreases found.len(),
{
    if found.len() == 0 {
        Seq::empty()
    } else {
        let front = told_all(g, found.drop_last());
        match g.rev(found.last().0) {
            Some(r) => front.push(told(r, found.last().1)),
            None => front,
        }
    }
}

/// Tells of what was found.
pub fn hits_of(graph: &InMemoryGraph, list: &Vec<Found>) -> (r: Vec<SymbolHit>)
    ensures
        hit_views(r@) == told_all(graph@, list@),
{
    let mut out: Vec<SymbolHit> = Vec::new();
    let mut i: usize = 0;
    proof {
        assert(list@.take(0) =~= Seq::<Found>::empty());
        assert(hit_views(out@) =~= Seq::empty());
    }
    while i < list.len()
        invariant
            i <= list.len(),
            hit_views(out@) == told_all(graph@, list@.take(i as int)),
        decreases list.len() - i,
    {
        let ghost before = hit_views(out@);
        proof {
            assert(list@.take(i + 1).drop_last() =~= list@.take(i as int));
            assert(list@.take(i + 1).last() == list@[i as int]);
        }
        if let Some(rev) = graph.get_revision(list[i].0) {
            let h = match &list[i].1 {
                Some(e) => hit_from_rev_and_edge(rev, e),
                None => hit_from_rev(rev),
            };
            let ghost hv = h@;
            out.push(h);
            assert(hit_views(out@) =~= before.push(hv));
        }
        i = i + 1;
    }
    assert(list@.take(list@.len() as int) =~= list@);
    out
}

/// The first of a list, as many as a limit allows.
pub open spec fn limited<A>(s: Seq<A>, limit: nat) -> Seq<A> {
    if s.len() <= limit {
        s
    } else {
        s.take(limit as int)
    }
}

/// Cuts a list to a limit.
fn cut_to<A>(v: &mut Vec<A>, limit: usize)
    ensures
        final(v)@ == limited(old(v)@, limit as nat),
{
    if v.len() > limit {
        v.truncate(limit);
        assert(v@ =~= old(v)@.take(limit as int));
    }
}

/// A revision of a branch has a name that contains a text.
pub open spec fn names_it(r: RevisionView, branch: BranchId, needle: Seq<char>) -> bool {
    r.branch_id == branch && text::contains_text(r.qualified_name, needle)
}

/// The revisions among some whose names contain a text.
pub open spec fn named_among(revs: Seq<RevisionView>, branch: BranchId, needle: Seq<char>) -> Seq<
    RevisionView,
>
    decreases revs.len(),
{
    if revs.len() == 0 {
        Seq::empty()
    } else if names_it(revs.last(), branch, needle) {
        named_among(revs.drop_last(), branch, needle).push(revs.last())
    } else {
        named_among(revs.drop_last(), branch, needle)
    }
}

/// How far up a revision comes where files are preferred: a file first, then a name that ends with
/// the text; of several the shortest name.
pub open spec fn rank_class(r: RevisionView, needle: Seq<char>) -> int {
    if r.qualified_name == r.file_path {
        0
    } else if text::finishes_with(r.qualified_name, needle) {
        1
    } else {
        2
    }
}

/// One revision does not come behind another.
pub open spec fn ranks_before(a: RevisionView, b: RevisionView, needle: Seq<char>) -> bool {
    let x = rank_class(a, needle);
    let y = rank_class(b, needle);
    x < y || x == y && spans::byte_len(a.qualified_name) <= spans::byte_len(b.qualified_name)
}

/// A list by rank with one more revision in its place, behind those that rank as high.
pub open spec fn put_by_rank(s: Seq<RevisionView>, x: RevisionView, needle: Seq<char>) -> Seq<
    RevisionView,
>
    decreases s.len(),
{
    if s.len() == 0 || ranks_before(s.last(), x, needle) {
        s.push(x)
    } else {
        put_by_rank(s.drop_last(), x, needle).push(s.last())
    }
}

/// Revisions by rank; those of one rank keep their order.
pub open spec fn by_rank(s: Seq<RevisionView>, needle: Seq<char>) -> Seq<RevisionView>
    decreases s.len(),
{
    if s.len() == 0 {
        Seq::empty()
    } else {
        put_by_rank(by_rank(s.drop_last(), needle), s.last(), needle)
    }
}

/// The ids of revisions, found by no edge.
pub open spec fn found_plainly(s: Seq<RevisionView>) -> Seq<Found> {
    s.map_values(|r: RevisionView| (r.revision_id, None::<GraphEdge>))
}

/// The symbols of a branch whose names contain a text.
pub open spec fn symbols_named(
    g: GraphView,
    branch: BranchId,
    needle: Seq<char>,
    limit: nat,
    prefer_file_hub: bool,
) -> Seq<Found> {
    let all = named_among(g.revisions, branch, needle);
    limited(
        found_plainly(
            if prefer_file_hub {
                by_rank(all, needle)
            } else {
                all
            },
        ),
        limit,
    )
}

/// The length of a name in bytes, as it is compared.
fn name_weight(s: &str) -> (r: (usize, usize))
    ensures
        r.0 * 4 + r.1 == spans::byte_len(s@),
        r.1 < 4,
{
    let cs = chars_of(s);
    let mut quads: usize = 0;
    let mut rest: usize = 0;
    let mut i: usize = 0;
    assert(cs@.take(0) =~= Seq::<char>::empty());
    while i < cs.len()
        invariant
            i <= cs.len(),
            cs@ == s@,
            rest < 4,
            quads <= i,
            quads * 4 + rest == spans::byte_len(cs@.take(i as int)),
        decreases cs.len() - i,
    {
        proof {
            assert(cs@.take(i + 1).drop_last() =~= cs@.take(i as int));
            assert(cs@.take(i + 1).last() == cs@[i as int]);
        }
        let w = char_width(cs[i]);
        if rest + w >= 4 {
            quads = quads + 1;
            rest = rest + w - 4;
        } else {
            rest = rest + w;
        }
        i = i + 1;
    }
    assert(cs@.take(cs@.len() as int) =~= cs@);
    (quads, rest)
}

/// The class of a revision.
fn class_of(r: &NodeRevision, needle: &str) -> (n: u8)
    ensures
        n == rank_class(r@, needle@),
{
    if same_text(r.qualified_name.as_str(), r.file_path.as_str()) {
        0
    } else if text_finishes_with(r.qualified_name.as_str(), needle) {
        1
    } else {
        2
    }
}

/// Whether one revision does not come behind another.
fn is_before(a: &NodeRevision, b: &NodeRevision, needle: &str) -> (r: bool)
    ensures
        r == ranks_before(a@, b@, needle@),
{
    let x = class_of(a, needle);
    let y = class_of(b, needle);
    if x != y {
        return x < y;
    }
    let (p, q) = name_weight(a.qualified_name.as_str());
    let (s, t) = name_weight(b.qualified_name.as_str());
    p < s || (p == s && q <= t)
}

/// The values of references to revisions.
pub open spec fn ref_views(v: Seq<&NodeRevision>) -> Seq<RevisionView> {
    v.map_values(|r: &NodeRevision| r@)
}

/// Puts a revision in its place by rank.
fn put_ranked<'a>(v: &mut Vec<&'a NodeRevision>, x: &'a NodeRevision, needle: &str)
    ensures
        ref_views(final(v)@) == put_by_rank(ref_views(old(v)@), x@, needle@),
{
    let ghost s = ref_views(v@);
    let mut k: usize = v.len();
    proof {
        assert(s.take(k as int) =~= s);
        assert(put_by_rank(s.take(k as int), x@, needle@) + s.skip(k as int) =~= put_by_rank(
            s,
            x@,
            needle@,
        ));
    }
    while k > 0 && !is_before(v[k - 1], x, needle)
        invariant
            k <= v.len(),
            s == ref_views(v@),
            put_by_rank(s.take(k as int), x@, needle@) + s.skip(k as int) == put_by_rank(
                s,
                x@,
                needle@,
            ),
        decreases k,
    {
        proof {
            let t = s.take(k as int);
            assert(t.last() == v@[k - 1]@);
            assert(t.drop_last() =~= s.take(k - 1));
            assert(put_by_rank(t.drop_last(), x@, needle@).push(t.last()) + s.skip(k as int)
                =~= put_by_rank(s.take(k - 1), x@, needle@) + s.skip(k - 1));
        }
        k = k - 1;
    }
    proof {
        let t = s.take(k as int);
        if k > 0 {
            assert(t.last() == v@[k - 1]@);
        }
        assert(put_by_rank(t, x@, needle@) == t.push(x@));
    }
    v.insert(k, x);
    proof {
        assert(ref_views(v@) =~= s.insert(k as int, x@));
        assert(s.insert(k as int, x@) =~= s.take(k as int).push(x@) + s.skip(k as int));
    }
}

/// Finds the symbols of a branch whose names contain a text.
pub fn find_symbol(
    graph: &InMemoryGraph,
    branch: BranchId,
    needle: &str,
    limit: usize,
    prefer_file_hub: bool,
) -> (r: Vec<Found>)
    ensures
        r@ == symbols_named(graph@, branch, needle@, limit as nat, prefer_file_hub),
{
    let revs = graph.revisions();
    let ghost s = graph@.revisions;
    let mut list: Vec<&NodeRevision> = Vec::new();
    let mut i: usize = 0;
    proof {
        assert(s.take(0) =~= Seq::<RevisionView>::empty());
        assert(ref_views(list@) =~= Seq::empty());
    }
    while i < revs.len()
        invariant
            i <= revs.len(),
            s == graph::revision_views(revs@),
            ref_views(list@) == (if prefer_file_hub {
                by_rank(named_among(s.take(i as int), branch, needle@), needle@)
            } else {
                named_among(s.take(i as int), branch, needle@)
            }),
        decreases revs.len() - i,
    {
        let r = &revs[i];
        let ghost before = ref_views(list@);
        proof {
            assert(s.take(i + 1).drop_last() =~= s.take(i as int));
            assert(s.take(i + 1).last() == r@);
            let all = named_among(s.take(i as int), branch, needle@).push(r@);
            assert(all.drop_last() =~= named_among(s.take(i as int), branch, needle@));
            assert(all.last() == r@);
        }
        if r.branch_id == branch && text_contains(r.qualified_name.as_str(), needle) {
            if prefer_file_hub {
                put_ranked(&mut list, r, needle);
            } else {
                list.push(r);
                assert(ref_views(list@) =~= before.push(r@));
            }
        }
        i = i + 1;
    }
    assert(s.take(s.len() as int) =~= s);
    let mut out: Vec<Found> = Vec::new();
    let ghost all = found_plainly(ref_views(list@));
    let mut j: usize = 0;
    assert(out@ =~= all.take(0));
    while j < list.len()
        invariant
            j <= list.len(),
            all == found_plainly(ref_views(list@)),
            out@ == all.take(j as int),
        decreases list.len() - j,
    {
        out.push((list[j].revision_id, None));
        assert(out@ =~= all.take(j + 1));
        j = j + 1;
    }
    assert(all.take(all.len() as int) =~= all);
    cut_to(&mut out, limit);
    out
}

/// The bound revisions among some whose names contain a text.
pub open spec fn bound_named(
    g: GraphView,
    pairs: Seq<(IdentityId, NodeRevisionId)>,
    branch: BranchId,
    needle: Seq<char>,
) -> Seq<Found>
    decreases pairs.len(),
{
    if pairs.len() == 0 {
        Seq::empty()
    } else {
        let front = bound_named(g, pairs.drop_last(), branch, needle);
        match g.rev(pairs.last().1) {
            Some(r) => if names_it(r, branch, needle) {
                front.push((pairs.last().1, None))
            } else {
                front
            },
            None => front,
        }
    }
}

/// Finds the bound revisions whose names contain a text.
pub fn find_symbol_at(
    graph: &InMemoryGraph,
    pairs: &Vec<(IdentityId, NodeRevisionId)>,
    branch: BranchId,
    needle: &str,
    limit: usize,
) -> (r: Vec<Found>)
    ensures
        r@ == limited(bound_named(graph@, pairs@, branch, needle@), limit as nat),
{
    let mut out: Vec<Found> = Vec::new();
    let mut i: usize = 0;
    assert(pairs@.take(0) =~= Seq::<(IdentityId, NodeRevisionId)>::empty());
    while i < pairs.len()
        invariant
            i <= pairs.len(),
            out@ == bound_named(graph@, pairs@.take(i as int), branch, needle@),
        decreases pairs.len() - i,
    {
        proof {
            assert(pairs@.take(i + 1).drop_last() =~= pairs@.take(i as int));
            assert(pairs@.take(i + 1).last() == pairs@[i as int]);
        }
        if let Some(rev) = graph.get_revision(pairs[i].1) {
            if rev.branch_id == branch && text_contains(rev.qualified_name.as_str(), needle) {
                out.push((pairs[i].1, None));
            }
        }
        i = i + 1;
    }
    assert(pairs@.take(pairs@.len() as int) =~= pairs@);
    cut_to(&mut out, limit);
    out
}

/// A revision is bound.
pub open spec fn binds_revision(pairs: Seq<(IdentityId, NodeRevisionId)>, rid: NodeRevisionId) -> bool {
    exists|i: int| 0 <= i < pairs.len() && (#[trigger] pairs[i]).1 == rid
}

/// Whether a revision is bound.
fn is_bound(pairs: &Vec<(IdentityId, NodeRevisionId)>, rid: NodeRevisionId) -> (r: bool)
    ensures
        r == binds_revision(pairs@, rid),
{
    let mut i: usize = 0;
    while i < pairs.len()
        invariant
            i <= pairs.len(),
            forall|j: int| 0 <= j < i ==> (#[trigger] pairs@[j]).1 != rid,
        decreases pairs.len() - i,
    {
        if pairs[i].1 == rid {
            return true;
        }
        i = i + 1;
    }
    false
}

/// The revision that a text stands for among bindings: one whose id it is, or else the first whose
/// name contains it.
pub open spec fn target_among(
    g: GraphView,
    pairs: Seq<(IdentityId, NodeRevisionId)>,
    branch: BranchId,
    target: Seq<char>,
    r: Option<NodeRevisionId>,
) -> bool {
    match hex::strict_id(text::trimmed(target)) {
        Some(id) => match r {
            Some(rid) => rid.0@ == id && binds_revision(pairs, rid),
            None => forall|rid: NodeRevisionId| rid.0@ == id ==> !#[trigger] binds_revision(pairs, rid),
        },
        None => {
            let all = bound_named(g, pairs, branch, text::trimmed(target));
            r == (if all.len() > 0 {
                Some(all[0].0)
            } else {
                None
            })
        },
    }
}

/// Finds the revision that a text stands for among bindings.
pub fn resolve_target_revision(
    target: &str,
    branch: BranchId,
    pairs: &Vec<(IdentityId, NodeRevisionId)>,
    graph: &InMemoryGraph,
) -> (r: Option<NodeRevisionId>)
    ensures
        target_among(graph@, pairs@, branch, target@, r),
{
    let t = text_trim(target);
    if let Some(id) = parse_strict_id(t.as_str()) {
        let rid = NodeRevisionId(id);
        if is_bound(pairs, rid) {
            return Some(rid);
        }
        proof {
            assert forall|other: NodeRevisionId| other.0@ == id@ implies !#[trigger] binds_revision(
                pairs@,
                other,
            ) by {
                assert(other.0 =~= id);
            }
        }
        return None;
    }
    let all = find_symbol_at(graph, pairs, branch, t.as_str(), 1);
    if all.len() > 0 {
        Some(all[0].0)
    } else {
        None
    }
}

/// The revision of a branch that an id names, or else the first whose name contains a text.
pub open spec fn revision_asked(
    g: GraphView,
    branch: BranchId,
    id: Option<Seq<char>>,
    symbol: Option<Seq<char>>,
) -> Option<RevisionView> {
    let by_name = match symbol {
        Some(needle) => {
            let all = named_among(g.revisions, branch, needle);
            if all.len() > 0 {
                Some(all[0])
            } else {
                None
            }
        },
        None => None,
    };
    match id {
        Some(h) => match hex::strict_id(h) {
            Some(b) => match g.rev(NodeRevisionId(ids::array_of(b))) {
                Some(r) => if r.branch_id == branch {
                    Some(r)
                } else {
                    by_name
                },
                None => by_name,
            },
            None => by_name,
        },
        None => by_name,
    }
}

/// The first of the revisions whose names contain a text.
proof fn lemma_first_named(revs: Seq<RevisionView>, branch: BranchId, needle: Seq<char>, i: int)
    requires
        0 <= i < revs.len(),
        names_it(revs[i], branch, needle),
        forall|j: int| 0 <= j < i ==> !names_it(#[trigger] revs[j], branch, needle),
    ensures
        named_among(revs, branch, needle).len() > 0,
        named_among(revs, branch, needle)[0] == revs[i],
    decreases revs.len(),
{
    let front = revs.drop_last();
    if i == revs.len() - 1 {
        lemma_none_named(front, branch, needle);
    } else {
        lemma_first_named(front, branch, needle, i);
    }
}

/// None of the revisions has a name that contains a text.
proof fn lemma_none_named(revs: Seq<RevisionView>, branch: BranchId, needle: Seq<char>)
    requires
        forall|j: int| 0 <= j < revs.len() ==> !names_it(#[trigger] revs[j], branch, needle),
    ensures
        named_among(revs, branch, needle).len() == 0,
    decreases revs.len(),
{
    if revs.len() > 0 {
        lemma_none_named(revs.drop_last(), branch, needle);
    }
}

/// Finds the revision of a branch that an id names, or else the first whose name contains a text.
pub fn resolve_revision_for_query<'a>(
    graph: &'a InMemoryGraph,
    revision_id_hex: Option<&str>,
    symbol: Option<&str>,
    branch: BranchId,
) -> (r: Result<&'a NodeRevision, AuthError>)
    ensures
        match r {
            Ok(rev) => revision_asked(
                graph@,
                branch,
                merge_branch::given_text(revision_id_hex),
                merge_branch::given_text(symbol),
            ) == Some(rev@),
            Err(e) => revision_asked(
                graph@,
                branch,
                merge_branch::given_text(revision_id_hex),
                merge_branch::given_text(symbol),
            ) is None && e == AuthError::InvalidInput,
        },
{
    if let Some(h) = revision_id_hex {
        if let Some(id) = parse_strict_id(h) {
            proof {
                ids::lemma_array_of(id);
            }
            if let Some(rev) = graph.get_revision(NodeRevisionId(id)) {
                if rev.branch_id == branch {
                    return Ok(rev);
                }
            }
        }
    }
    if let Some(needle) = symbol {
        let revs = graph.revisions();
        let ghost s = graph@.revisions;
        let mut i: usize = 0;
        while i < revs.len()
            invariant
                i <= revs.len(),
                s == graph::revision_views(revs@),
                s == graph@.revisions,
                symbol == Some(needle),
                forall|j: int| 0 <= j < i ==> !names_it(#[trigger] s[j], branch, needle@),
                revision_asked(graph@, branch, merge_branch::given_text(revision_id_hex), merge_branch::given_text(symbol))
                    == (if named_among(s, branch, needle@).len() > 0 {
                    Some(named_among(s, branch, needle@)[0])
                } else {
                    None
                }),
            decreases revs.len() - i,
        {
            assert(s[i as int] == revs@[i as int]@);
            if revs[i].branch_id == branch && text_contains(revs[i].qualified_name.as_str(), needle) {
                proof {
                    lemma_first_named(s, branch, needle@, i as int);
                }
                return Ok(&revs[i]);
            }
            i = i + 1;
        }
        proof {
            lemma_none_named(s, branch, needle@);
        }
    }
    Err(AuthError::InvalidInput)
}

/// The revision that a request asks about: of this id, and of this branch.
pub open spec fn asked_about(g: GraphView, branch: BranchId, id: Seq<char>) -> Option<RevisionView> {
    match hex::strict_id(id) {
        Some(b) => match g.rev(NodeRevisionId(ids::array_of(b))) {
            Some(r) => if r.branch_id == branch {
                Some(r)
            } else {
                None
            },
            None => None,
        },
        None => None,
    }
}

/// Finds the revision that a request asks about.
pub fn revision_of_request<'a>(graph: &'a InMemoryGraph, branch: BranchId, revision_id_hex: &str) -> (r:
    Result<&'a NodeRevision, AuthError>)
    ensures
        match r {
            Ok(rev) => asked_about(graph@, branch, revision_id_hex@) == Some(rev@),
            Err(e) => asked_about(graph@, branch, revision_id_hex@) is None && e
                == AuthError::InvalidInput,
        },
{
    match parse_strict_id(revision_id_hex) {
        Some(id) => {
            proof {
                ids::lemma_array_of(id);
            }
            match graph.get_revision(NodeRevisionId(id)) {
                Some(rev) => {
                    if rev.branch_id == branch {
                        Ok(rev)
                    } else {
                        Err(AuthError::InvalidInput)
                    }
                },
                None => Err(AuthError::InvalidInput),
            }
        },
        None => Err(AuthError::InvalidInput),
    }
}

/// An edge leads to an identity, as a branch sees it, and is a call where only calls count.
pub open spec fn edge_hits(
    m: Map<Seq<char>, Seq<u8>>,
    branch: BranchId,
    e: GraphEdge,
    iid: IdentityId,
    calls_only: bool,
) -> bool {
    overrides::effective_target(m, seq![branch], e) == iid && (calls_only ==> e.ty == EdgeType::Calls)
}

/// The first of some edges that leads to an identity.
pub open spec fn first_hit(
    m: Map<Seq<char>, Seq<u8>>,
    branch: BranchId,
    edges: Seq<GraphEdge>,
    iid: IdentityId,
    calls_only: bool,
) -> Option<GraphEdge>
    decreases edges.len(),
{
    if edges.len() == 0 {
        None
    } else if edge_hits(m, branch, edges[0], iid, calls_only) {
        Some(edges[0])
    } else {
        first_hit(m, branch, edges.skip(1), iid, calls_only)
    }
}

/// Finds the first of some edges that leads to an identity.
fn find_first_hit(
    kv: &MemoryKv,
    branch: BranchId,
    edges: &Vec<GraphEdge>,
    iid: IdentityId,
    calls_only: bool,
) -> (r: Option<GraphEdge>)
    ensures
        r == first_hit(kv@, branch, edges@, iid, calls_only),
{
    let store = EdgeTargetOverrideStore::new();
    let mut i: usize = 0;
    assert(edges@.skip(0) =~= edges@);
    while i < edges.len()
        invariant
            i <= edges.len(),
            first_hit(kv@, branch, edges@.skip(i as int), iid, calls_only) == first_hit(
                kv@,
                branch,
                edges@,
                iid,
                calls_only,
            ),
        decreases edges.len() - i,
    {
        proof {
            assert(edges@.skip(i as int)[0] == edges@[i as int]);
            assert(edges@.skip(i as int).skip(1) =~= edges@.skip(i + 1));
        }
        let t = store.effective_target_identity(kv, branch, &edges[i]);
        if t == iid && (!calls_only || edges[i].ty == EdgeType::Calls) {
            return Some(edges[i]);
        }
        i = i + 1;
    }
    None
}

/// The revisions of identities that refer to an identity.
pub open spec fn references(
    g: GraphView,
    m: Map<Seq<char>, Seq<u8>>,
    branch: BranchId,
    sources: Seq<IdentityId>,
    iid: IdentityId,
) -> Seq<Found>
    decreases sources.len(),
{
    if sources.len() == 0 {
        Seq::empty()
    } else {
        let front = references(g, m, branch, sources.drop_last(), iid);
        match g.primary(branch, sources.last()) {
            Some(r) => match first_hit(m, branch, g.out(r.revision_id), iid, false) {
                Some(e) => front.push((r.revision_id, Some(e))),
                None => front,
            },
            None => front,
        }
    }
}

/// Finds what refers to the symbol of a revision.
pub fn find_references(
    graph: &InMemoryGraph,
    kv: &MemoryKv,
    branch: BranchId,
    revision_id_hex: &str,
    limit: usize,
) -> (r: Result<Vec<Found>, AuthError>)
    ensures
        match (asked_about(graph@, branch, revision_id_hex@), r) {
            (Some(rev), Ok(v)) => v@ == limited(
                references(
                    graph@,
                    kv@,
                    branch,
                    graph@.sources_targeting(rev.identity_id),
                    rev.identity_id,
                ),
                limit as nat,
            ),
            (None, Err(e)) => e == AuthError::InvalidInput,
            _ => false,
        },
{
    let rev = match revision_of_request(graph, branch, revision_id_hex) {
        Ok(r) => r,
        Err(e) => {
            return Err(e);
        },
    };
    let iid = rev.identity_id;
    let sources = graph.source_identities_targeting(iid);
    let mut out: Vec<Found> = Vec::new();
    let mut i: usize = 0;
    assert(sources@.take(0) =~= Seq::<IdentityId>::empty());
    while i < sources.len()
        invariant
            i <= sources.len(),
            out@ == references(graph@, kv@, branch, sources@.take(i as int), iid),
        decreases sources.len() - i,
    {
        proof {
            assert(sources@.take(i + 1).drop_last() =~= sources@.take(i as int));
            assert(sources@.take(i + 1).last() == sources@[i as int]);
        }
        if let Some(src) = graph.primary_revision_for_identity(branch, sources[i]) {
            let edges = graph.outbound_edges(src.revision_id);
            if let Some(e) = find_first_hit(kv, branch, &edges, iid, false) {
                out.push((src.revision_id, Some(e)));
            }
        }
        i = i + 1;
    }
    assert(sources@.take(sources@.len() as int) =~= sources@);
    cut_to(&mut out, limit);
    Ok(out)
}

/// The revisions of a branch among some that call an identity.
pub open spec fn callers(
    g: GraphView,
    m: Map<Seq<char>, Seq<u8>>,
    branch: BranchId,
    revs: Seq<RevisionView>,
    iid: IdentityId,
) -> Seq<Found>
    decreases revs.len(),
{
    if revs.len() == 0 {
        Seq::empty()
    } else {
        let front = callers(g, m, branch, revs.drop_last(), iid);
        let r = revs.last();
        if r.branch_id != branch {
            front
        } else {
            match first_hit(m, branch, g.out(r.revision_id), iid, true) {
                Some(e) => front.push((r.revision_id, Some(e))),
                None => front,
            }
        }
    }
}

/// Finds what calls an identity.
pub fn get_callers(
    graph: &InMemoryGraph,
    kv: &MemoryKv,
    branch: BranchId,
    identity_id_hex: &str,
    limit: usize,
) -> (r: Result<Vec<Found>, AuthError>)
    ensures
        match (hex::strict_id(identity_id_hex@), r) {
            (Some(b), Ok(v)) => v@ == limited(
                callers(graph@, kv@, branch, graph@.revisions, IdentityId(ids::array_of(b))),
                limit as nat,
            ),
            (None, Err(e)) => e == AuthError::InvalidInput,
            _ => false,
        },
{
    let iid = match parse_strict_id(identity_id_hex) {
        Some(b) => {
            proof {
                ids::lemma_array_of(b);
            }
            IdentityId(b)
        },
        None => {
            return Err(AuthError::InvalidInput);
        },
    };
    let revs = graph.revisions();
    let ghost s = graph@.revisions;
    let mut out: Vec<Found> = Vec::new();
    let mut i: usize = 0;
    assert(s.take(0) =~= Seq::<RevisionView>::empty());
    while i < revs.len()
        invariant
            i <= revs.len(),
            s == graph::revision_views(revs@),
            out@ == callers(graph@, kv@, branch, s.take(i as int), iid),
        decreases revs.len() - i,
    {
        proof {
            assert(s.take(i + 1).drop_last() =~= s.take(i as int));
            assert(s.take(i + 1).last() == revs@[i as int]@);
        }
        if revs[i].branch_id == branch {
            let edges = graph.outbound_edges(revs[i].revision_id);
            if let Some(e) = find_first_hit(kv, branch, &edges, iid, true) {
                out.push((revs[i].revision_id, Some(e)));
            }
        }
        i = i + 1;
    }
    assert(s.take(s.len() as int) =~= s);
    cut_to(&mut out, limit);
    Ok(out)
}

/// A revision was found.
pub open spec fn was_found(found: Seq<Found>, rid: NodeRevisionId) -> bool {
    exists|i: int| 0 <= i < found.len() && (#[trigger] found[i]).0 == rid
}

/// Whether a revision was found.
fn is_found(list: &Vec<Found>, rid: NodeRevisionId) -> (r: bool)
    ensures
        r == was_found(list@, rid),
{
    let mut i: usize = 0;
    while i < list.len()
        invariant
            i <= list.len(),
            forall|j: int| 0 <= j < i ==> (#[trigger] list@[j]).0 != rid,
        decreases list.len() - i,
    {
        if list[i].0 == rid {
            return true;
        }
        i = i + 1;
    }
    false
}

/// An edge that makes a dependency; only imports do where only they count.
pub open spec fn makes_dependency(ty: EdgeType, imports_only: bool) -> bool {
    ||| ty == EdgeType::Imports
    ||| !imports_only && (ty == EdgeType::Uses || ty == EdgeType::Calls || ty == EdgeType::Extends)
}

/// Where some edges lead, each revision once, by the first edge that leads there.
pub open spec fn dependencies(
    g: GraphView,
    m: Map<Seq<char>, Seq<u8>>,
    chain: Seq<BranchId>,
    edges: Seq<GraphEdge>,
    imports_only: bool,
) -> Seq<Found>
    decreases edges.len(),
{
    if edges.len() == 0 {
        Seq::empty()
    } else {
        let front = dependencies(g, m, chain, edges.drop_last(), imports_only);
        let e = edges.last();
        match query_engine::edge_revision(g, m, None, chain, e) {
            Some(r) => if makes_dependency(e.ty, imports_only) && !was_found(front, r.revision_id) {
                front.push((r.revision_id, Some(e)))
            } else {
                front
            },
            None => front,
        }
    }
}

/// Finds where some edges lead.
fn follow_edges(
    graph: &InMemoryGraph,
    kv: &MemoryKv,
    chain: &Vec<BranchId>,
    edges: &Vec<GraphEdge>,
    imports_only: bool,
) -> (out: Vec<Found>)
    ensures
        out@ == dependencies(graph@, kv@, chain@, edges@, imports_only),
{
    let mut out: Vec<Found> = Vec::new();
    let mut i: usize = 0;
    assert(edges@.take(0) =~= Seq::<GraphEdge>::empty());
    while i < edges.len()
        invariant
            i <= edges.len(),
            out@ == dependencies(graph@, kv@, chain@, edges@.take(i as int), imports_only),
        decreases edges.len() - i,
    {
        proof {
            assert(edges@.take(i + 1).drop_last() =~= edges@.take(i as int));
            assert(edges@.take(i + 1).last() == edges@[i as int]);
        }
        let counts = match edges[i].ty {
            EdgeType::Imports => true,
            EdgeType::Uses => !imports_only,
            EdgeType::Calls => !imports_only,
            EdgeType::Extends => !imports_only,
            _ => false,
        };
        if let Some(rev) = resolve_edge_target(graph, kv, chain, &edges[i]) {
            if counts && !is_found(&out, rev.revision_id) {
                out.push((rev.revision_id, Some(edges[i])));
            }
        }
        i = i + 1;
    }
    assert(edges@.take(edges@.len() as int) =~= edges@);
    out
}

/// Finds what a revision depends on, as a branch with its ancestors sees it.
pub fn get_dependencies(
    graph: &InMemoryGraph,
    kv: &MemoryKv,
    branch: BranchId,
    chain: &Vec<BranchId>,
    revision_id_hex: &str,
    limit: usize,
) -> (r: Result<Vec<Found>, AuthError>)
    ensures
        match (asked_about(graph@, branch, revision_id_hex@), r) {
            (Some(rev), Ok(v)) => v@ == limited(
                dependencies(
                    graph@,
                    kv@,
                    chain@,
                    query_engine::context_edges(graph@, chain@, rev.revision_id),
                    false,
                ),
                limit as nat,
            ),
            (None, Err(e)) => e == AuthError::InvalidInput,
            _ => false,
        },
{
    let rid = match revision_of_request(graph, branch, revision_id_hex) {
        Ok(r) => r.revision_id,
        Err(e) => {
            return Err(e);
        },
    };
    let edges = outbound_context_edges(graph, chain, rid);
    let mut out = follow_edges(graph, kv, chain, &edges, false);
    cut_to(&mut out, limit);
    Ok(out)
}

/// A path of a repository as it is looked up: with slashes, and without a leading mark for the
/// current directory.
pub open spec fn plain_path(path: Seq<char>) -> Seq<char> {
    let p = text::replaced(text::trimmed(path), '\\', '/');
    if text::begins_with(p, "./"@) {
        p.skip(2)
    } else {
        p
    }
}

/// Brings a path of a repository into the form in which it is looked up.
pub fn plain_path_of(path: &str) -> (r: String)
    ensures
        r@ == plain_path(path@),
{
    let t = text_trim(path);
    let cs = chars_of(t.as_str());
    let bs = chars_replace(&cs, '\\', '/');
    let p = text_of(&bs);
    if text_begins_with(p.as_str(), "./") {
        proof {
            reveal_strlit("./");
        }
        let part = cut(&bs, 2, bs.len());
        assert(part@ =~= p@.skip(2));
        return text_of(&part);
    }
    p
}

/// Finds what a file imports: the hub of the file, and where its import edges lead.
pub fn file_imports(
    graph: &InMemoryGraph,
    kv: &MemoryKv,
    chain: &Vec<BranchId>,
    file_path: &str,
    limit: usize,
) -> (r: Result<(NodeRevisionId, Vec<Found>), AuthError>)
    ensures
        match (query_engine::file_hub(graph@, chain@, plain_path(file_path@)), r) {
            (Some(hub), Ok((rid, v))) => rid == hub && v@ == limited(
                dependencies(graph@, kv@, chain@, graph@.out(rid), true),
                limit as nat,
            ),
            (None, Err(e)) => e == AuthError::InvalidInput,
            _ => false,
        },
{
    let path = plain_path_of(file_path);
    match file_hub_revision_for_path(graph, chain, path.as_str()) {
        Some(hub) => {
            let edges = graph.outbound_edges(hub);
            let mut out = follow_edges(graph, kv, chain, &edges, true);
            cut_to(&mut out, limit);
            Ok((hub, out))
        },
        None => Err(AuthError::InvalidInput),
    }
}

/// Finds the definition that a revision leads to.
pub fn go_to_definition<'a>(
    graph: &'a InMemoryGraph,
    kv: &MemoryKv,
    branch: BranchId,
    chain: &Vec<BranchId>,
    revision_id_hex: &str,
) -> (r: Result<Option<&'a NodeRevision>, AuthError>)
    ensures
        match (asked_about(graph@, branch, revision_id_hex@), r) {
            (Some(rev), Ok(target)) => query_engine::found(target) == query_engine::definition_target(
                graph@,
                kv@,
                None,
                chain@,
                rev.revision_id,
            ),
            (None, Err(e)) => e == AuthError::InvalidInput,
            _ => false,
        },
{
    match revision_of_request(graph, branch, revision_id_hex) {
        Ok(r) => Ok(resolve_definition_target(graph, kv, chain, r.revision_id)),
        Err(e) => Err(e),
    }
}

/// An edge that should lead to a definition.
pub open spec fn defines(ty: EdgeType) -> bool {
    ty == EdgeType::Imports || ty == EdgeType::Extends || ty == EdgeType::Calls
}

/// How many of some edges should lead to a definition.
pub open spec fn candidates(edges: Seq<GraphEdge>) -> nat
    decreases edges.len(),
{
    if edges.len() == 0 {
        0
    } else {
        candidates(edges.drop_last()) + (if defines(edges.last().ty) {
            1nat
        } else {
            0nat
        })
    }
}

/// Why a revision leads to no definition; files that are read by expressions alone are a reason too.
pub open spec fn no_definition_reasons(
    g: GraphView,
    m: Map<Seq<char>, Seq<u8>>,
    chain: Seq<BranchId>,
    edges: Seq<GraphEdge>,
    by_expressions: bool,
) -> Seq<Seq<char>> {
    (if by_expressions {
        seq!["index_mode_regex_limits_call_precision"@]
    } else {
        Seq::empty()
    }) + edge_reasons(g, m, chain, edges)
}

/// Why the edges of a revision lead to no definition.
pub open spec fn edge_reasons(
    g: GraphView,
    m: Map<Seq<char>, Seq<u8>>,
    chain: Seq<BranchId>,
    edges: Seq<GraphEdge>,
) -> Seq<Seq<char>> {
    if candidates(edges) == 0 {
        seq!["no_outbound_definition_edges"@]
    } else if query_engine::unresolved_among(g, m, chain, edges) > 0 {
        seq!["target_identity_without_active_revision"@]
    } else {
        Seq::empty()
    }
}

/// Finds why a revision leads to no definition, and how many of its edges should lead to one.
/// `by_expressions` tells that files are read by expressions alone, without a syntax tree.
pub fn why_no_definition(
    graph: &InMemoryGraph,
    kv: &MemoryKv,
    branch: BranchId,
    chain: &Vec<BranchId>,
    revision_id_hex: &str,
    by_expressions: bool,
) -> (r: Result<(usize, Vec<String>), AuthError>)
    ensures
        match (asked_about(graph@, branch, revision_id_hex@), r) {
            (Some(rev), Ok((n, reasons))) => {
                let edges = graph@.out(rev.revision_id);
                n == candidates(edges) && text::texts(reasons@) == no_definition_reasons(
                    graph@,
                    kv@,
                    chain@,
                    edges,
                    by_expressions,
                )
            },
            (None, Err(e)) => e == AuthError::InvalidInput,
            _ => false,
        },
{
    let rid = match revision_of_request(graph, branch, revision_id_hex) {
        Ok(r) => r.revision_id,
        Err(e) => {
            return Err(e);
        },
    };
    let edges = graph.outbound_edges(rid);
    let mut n: usize = 0;
    let mut missing: usize = 0;
    let mut i: usize = 0;
    assert(edges@.take(0) =~= Seq::<GraphEdge>::empty());
    while i < edges.len()
        invariant
            i <= edges.len(),
            n <= i,
            missing <= i,
            n == candidates(edges@.take(i as int)),
            missing == query_engine::unresolved_among(graph@, kv@, chain@, edges@.take(i as int)),
            missing <= n,
        decreases edges.len() - i,
    {
        proof {
            assert(edges@.take(i + 1).drop_last() =~= edges@.take(i as int));
            assert(edges@.take(i + 1).last() == edges@[i as int]);
        }
        let counts = match edges[i].ty {
            EdgeType::Imports => true,
            EdgeType::Extends => true,
            EdgeType::Calls => true,
            _ => false,
        };
        if counts {
            n = n + 1;
            if resolve_edge_target(graph, kv, chain, &edges[i]).is_none() {
                missing = missing + 1;
            }
        }
        i = i + 1;
    }
    assert(edges@.take(edges@.len() as int) =~= edges@);
    let mut reasons: Vec<String> = Vec::new();
    assert(text::texts(reasons@) =~= Seq::empty());
    if by_expressions {
        add_name(&mut reasons, owned("index_mode_regex_limits_call_precision"));
    }
    if n == 0 {
        add_name(&mut reasons, owned("no_outbound_definition_edges"));
    } else if missing > 0 {
        add_name(&mut reasons, owned("target_identity_without_active_revision"));
    }
    assert(text::texts(reasons@) =~= no_definition_reasons(
        graph@,
        kv@,
        chain@,
        edges@,
        by_expressions,
    ));
    Ok((n, reasons))
}

/// How many revisions of an identity on a branch stand in a status.
pub open spec fn in_status_count(
    revs: Seq<RevisionView>,
    branch: BranchId,
    iid: IdentityId,
    status: RevisionStatus,
) -> nat
    decreases revs.len(),
{
    if revs.len() == 0 {
        0
    } else {
        let r = revs.last();
        in_status_count(revs.drop_last(), branch, iid, status) + (if r.branch_id == branch
            && r.identity_id == iid && r.status == status {
            1nat
        } else {
            0nat
        })
    }
}

/// Counts the revisions of an identity on a branch that stand in a status.
fn count_in_status(
    graph: &InMemoryGraph,
    branch: BranchId,
    iid: IdentityId,
    status: RevisionStatus,
) -> (n: usize)
    ensures
        n == in_status_count(graph@.revisions, branch, iid, status),
{
    let revs = graph.revisions();
    let ghost s = graph@.revisions;
    let mut n: usize = 0;
    let mut i: usize = 0;
    assert(s.take(0) =~= Seq::<RevisionView>::empty());
    while i < revs.len()
        invariant
            i <= revs.len(),
            s == graph::revision_views(revs@),
            n <= i,
            n == in_status_count(s.take(i as int), branch, iid, status),
        decreases revs.len() - i,
    {
        let r = &revs[i];
        proof {
            assert(s.take(i + 1).drop_last() =~= s.take(i as int));
            assert(s.take(i + 1).last() == r@);
        }
        if r.branch_id == branch && r.identity_id == iid && r.status == status {
            n = n + 1;
        }
        i = i + 1;
    }
    assert(s.take(s.len() as int) =~= s);
    n
}

/// What counts against a revision.
#[derive(Debug, Clone, Copy, PartialEq, Eq, Structural)]
pub struct ExplainCounts {
    pub stale_count: usize,
    pub speculative_count: usize,
    pub pruned_low_confidence_count: usize,
}

/// What is told of a revision besides its weights.
#[derive(Debug)]
pub struct Explanation {
    pub counts: ExplainCounts,
    pub outbound: usize,
    pub inbound: usize,
    pub notes: String,
    pub degraded_modes: Vec<String>,
}

/// The notes on a revision.
pub open spec fn explain_notes(
    outbound: nat,
    inbound: nat,
    budget_tokens: nat,
    counts: ExplainCounts,
) -> Seq<char> {
    "axes \u{a7}01.2; outbound_edges="@ + hex::decimal(outbound) + "; inbound_source_identities="@ + hex::decimal(
        inbound,
    ) + "; budget_tokens="@ + hex::decimal(budget_tokens)
        + " (char/4 tokenizer for build_context); tombstone_rows_for_identity="@ + hex::decimal(
        counts.stale_count as nat,
    ) + "; orphaned_rows_for_identity="@ + hex::decimal(counts.speculative_count as nat)
        + "; unresolved_edge_targets="@ + hex::decimal(counts.pruned_low_confidence_count as nat)
}

/// What is wrong around a revision.
pub open spec fn explain_modes(counts: ExplainCounts) -> Seq<Seq<char>> {
    (if counts.stale_count > 0 {
        seq!["stale_graph_nodes"@]
    } else {
        Seq::empty()
    }) + (if counts.pruned_low_confidence_count > 0 {
        seq!["dangling_edges"@]
    } else {
        Seq::empty()
    }) + (if counts.speculative_count > 0 {
        seq!["orphaned_revisions"@]
    } else {
        Seq::empty()
    })
}

/// Appends a label and a number.
fn append_labelled(s: &mut String, label: &str, n: usize)
    ensures
        final(s)@ == old(s)@ + label@ + hex::decimal(n as nat),
{
    append_text(s, label);
    append_text(s, decimal_text(n as u64).as_str());
}

/// At most three steps.
pub open spec fn at_most_three(max_hops: u32) -> u32 {
    if max_hops < 3 {
        max_hops
    } else {
        3
    }
}

/// A sum, or the largest number where it is larger.
pub open spec fn capped_sum(a: nat, b: nat) -> nat {
    if a + b > usize::MAX {
        usize::MAX as nat
    } else {
        a + b
    }
}

/// What is told of a revision, where a walk from it left `pruned` ways aside.
pub open spec fn explained(
    g: GraphView,
    m: Map<Seq<char>, Seq<u8>>,
    branch: BranchId,
    chain: Seq<BranchId>,
    rev: RevisionView,
    budget_tokens: nat,
    pruned: nat,
    x: Explanation,
) -> bool {
    let missing = query_engine::unresolved_among(
        g,
        m,
        chain,
        query_engine::context_edges(g, chain, rev.revision_id),
    );
    &&& x.counts.stale_count == in_status_count(
        g.revisions,
        branch,
        rev.identity_id,
        RevisionStatus::Tombstone,
    )
    &&& x.counts.speculative_count == in_status_count(
        g.revisions,
        branch,
        rev.identity_id,
        RevisionStatus::Orphaned,
    )
    &&& x.counts.pruned_low_confidence_count == capped_sum(missing, pruned)
    &&& x.outbound == g.out(rev.revision_id).len()
    &&& x.inbound == g.sources_targeting(rev.identity_id).len()
    &&& x.notes@ == explain_notes(
        x.outbound as nat,
        x.inbound as nat,
        budget_tokens,
        x.counts,
    )
    &&& text::texts(x.degraded_modes@) == explain_modes(x.counts)
}

/// Tells of a revision what counts against it: what is gone or orphaned of its identity, where its
/// edges lead nowhere, and which ways a walk of at most three steps from it does not follow.
pub fn explain_context<J: PathJudge>(
    graph: &InMemoryGraph,
    kv: &MemoryKv,
    judge: &J,
    branch: BranchId,
    chain: &Vec<BranchId>,
    revision_id_hex: &str,
    budget_tokens: usize,
    max_hops: u32,
) -> (r: Result<Explanation, AuthError>)
    requires
        judge.steady(),
    ensures
        match (asked_about(graph@, branch, revision_id_hex@), r) {
            (Some(rev), Ok(x)) => exists|steps: nat, w: ExpandContextResult| #[trigger]
                query_engine::walk_ends(
                    query_engine::walk_env(
                        graph,
                        kv,
                        judge,
                        chain,
                        None,
                        rev.revision_id,
                        at_most_three(max_hops),
                    ),
                    steps,
                    w,
                ) && explained(
                    graph@,
                    kv@,
                    branch,
                    chain@,
                    rev,
                    budget_tokens as nat,
                    w.pruned_low_confidence_count as nat,
                    x,
                ),
            (None, Err(e)) => e == AuthError::InvalidInput,
            _ => false,
        },
{
    let rev = match revision_of_request(graph, branch, revision_id_hex) {
        Ok(r) => r,
        Err(e) => {
            return Err(e);
        },
    };
    let iid = rev.identity_id;
    let depth: u32 = if max_hops < 3 {
        max_hops
    } else {
        3
    };
    let missing = count_unresolved_definition_edges(graph, kv, chain, rev.revision_id);
    let pruned = count_pruned_expand_neighbors(graph, kv, judge, chain, rev.revision_id, depth);
    let low: usize = if pruned > usize::MAX - missing {
        usize::MAX
    } else {
        missing + pruned
    };
    let counts = ExplainCounts {
        stale_count: count_in_status(graph, branch, iid, RevisionStatus::Tombstone),
        speculative_count: count_in_status(graph, branch, iid, RevisionStatus::Orphaned),
        pruned_low_confidence_count: low,
    };
    let outbound = graph.outbound_edges(rev.revision_id).len();
    let inbound = graph.source_identities_targeting(iid).len();
    let mut notes = owned("axes \u{a7}01.2; outbound_edges=");
    append_text(&mut notes, decimal_text(outbound as u64).as_str());
    append_labelled(&mut notes, "; inbound_source_identities=", inbound);
    append_labelled(&mut notes, "; budget_tokens=", budget_tokens);
    append_labelled(
        &mut notes,
        " (char/4 tokenizer for build_context); tombstone_rows_for_identity=",
        counts.stale_count,
    );
    append_labelled(&mut notes, "; orphaned_rows_for_identity=", counts.speculative_count);
    append_labelled(
        &mut notes,
        "; unresolved_edge_targets=",
        counts.pruned_low_confidence_count,
    );
    let mut modes: Vec<String> = Vec::new();
    assert(text::texts(modes@) =~= Seq::empty());
    if counts.stale_count > 0 {
        add_name(&mut modes, owned("stale_graph_nodes"));
    }
    if counts.pruned_low_confidence_count > 0 {
        add_name(&mut modes, owned("dangling_edges"));
    }
    if counts.speculative_count > 0 {
        add_name(&mut modes, owned("orphaned_revisions"));
    }
    assert(text::texts(modes@) =~= explain_modes(counts));
    Ok(Explanation { counts, outbound, inbound, notes, degraded_modes: modes })
}

/// What a walk met, without the ways there.
pub open spec fn met(hits: Seq<(NodeRevisionId, Vec<GraphEdge>)>) -> Seq<Found> {
    hits.map_values(|h: (NodeRevisionId, Vec<GraphEdge>)| (h.0, None::<GraphEdge>))
}

/// Tells of what a walk from a revision meets, at most `limit` of it, and how many ways it does not
/// follow.
pub fn expand_context<J: PathJudge>(
    graph: &InMemoryGraph,
    kv: &MemoryKv,
    judge: &J,
    chain: &Vec<BranchId>,
    revision_id_hex: &str,
    depth: u32,
    limit: usize,
) -> (r: Result<(Vec<SymbolHit>, usize), AuthError>)
    requires
        judge.steady(),
    ensures
        match (hex::strict_id(revision_id_hex@), r) {
            (Some(b), Ok((hits, pruned))) => exists|steps: nat, w: ExpandContextResult| #[trigger]
                query_engine::walk_ends(
                    query_engine::walk_env(
                        graph,
                        kv,
                        judge,
                        chain,
                        None,
                        NodeRevisionId(ids::array_of(b)),
                        depth,
                    ),
                    steps,
                    w,
                ) && hit_views(hits@) == told_all(graph@, limited(met(w.hits@), limit as nat))
                    && pruned == w.pruned_low_confidence_count,
            (None, Err(e)) => e == AuthError::InvalidInput,
            _ => false,
        },
{
    let start = match parse_strict_id(revision_id_hex) {
        Some(b) => {
            proof {
                ids::lemma_array_of(b);
            }
            NodeRevisionId(b)
        },
        None => {
            return Err(AuthError::InvalidInput);
        },
    };
    let w = expand_context_bfs(graph, kv, judge, chain, start, depth);
    let ghost all = met(w.hits@);
    let mut list: Vec<Found> = Vec::new();
    let mut i: usize = 0;
    while i < w.hits.len() && i < limit
        invariant
            i <= w.hits.len(),
            i <= limit,
            all == met(w.hits@),
            list@ == all.take(i as int),
        decreases w.hits.len() - i,
    {
        list.push((w.hits[i].0, None));
        assert(list@ =~= all.take(i + 1));
        i = i + 1;
    }
    assert(list@ =~= limited(all, limit as nat));
    Ok((hits_of(graph, &list), w.pruned_low_confidence_count))
}

/// The revision that a text stood for at a point of the log: what it stands for among the bindings
/// of the snapshot, as the graph holds it now.
pub open spec fn stood_for(
    g: GraphView,
    local: Map<IdentityId, NodeRevisionId>,
    branch: BranchId,
    target: Seq<char>,
    r: Option<RevisionView>,
) -> bool {
    exists|pairs: Seq<(IdentityId, NodeRevisionId)>, rid: Option<NodeRevisionId>|
        bindings::pairs_of(local, pairs) && #[trigger] target_among(g, pairs, branch, target, rid)
            && r == (match rid {
            Some(id) => g.rev(id),
            None => None,
        })
}

/// Finds the revision that a text stood for at a point of the log, whose text is then to be built.
/// The snapshot is read from the store, or else from the bytes that were kept elsewhere.
pub fn revision_at_log<'a>(
    graph: &'a InMemoryGraph,
    kv: &MemoryKv,
    branch: BranchId,
    target: &str,
    wal_log_id: u64,
    elsewhere: Option<Vec<u8>>,
) -> (r: Result<&'a NodeRevision, AuthError>)
    ensures
        r is Err ==> r->Err_0 == AuthError::InvalidInput,
        ({
            let bytes = match time_travel::number_at(
                kv@,
                time_travel::log_anchor_key(branch, wal_log_id),
            ) {
                Some(epoch) => revision_cow::snapshot_bytes(
                    kv@,
                    branch,
                    epoch,
                    match elsewhere {
                        Some(v) => Some(v@),
                        None => None,
                    },
                ),
                None => None,
            };
            if bytes is Some && codec::pairs_of_json(bytes->0) is Some {
                stood_for(
                    graph@,
                    revision_cow::bindings_of_raw(codec::pairs_of_json(bytes->0)->0),
                    branch,
                    target@,
                    match r {
                        Ok(rev) => Some(rev@),
                        Err(_) => None,
                    },
                )
            } else {
                r is Err
            }
        }),
{
    let overlay = match overlay_at_wal_log_at(kv, branch, wal_log_id, elsewhere) {
        Some(o) => o,
        None => {
            return Err(AuthError::InvalidInput);
        },
    };
    let pairs = overlay.resolved_bindings();
    proof {
        let one = overlay.layers();
        assert(one.skip(1) =~= Seq::<Layer>::empty());
        assert(revision_cow::folded(one.skip(1)) == Map::<IdentityId, NodeRevisionId>::empty());
        assert(revision_cow::folded(one) =~= one[0].local);
    }
    let rid = match resolve_target_revision(target, branch, &pairs, graph) {
        Some(rid) => rid,
        None => {
            return Err(AuthError::InvalidInput);
        },
    };
    match graph.get_revision(rid) {
        Some(rev) => Ok(rev),
        None => Err(AuthError::InvalidInput),
    }
}

/// A merge is under way on a branch: it is locked, or held back for a recovery.
pub open spec fn merge_under_way(m: Map<Seq<char>, Seq<u8>>, branch: BranchId) -> bool {
    merge_gate::query_blocked(m, branch) || merge_lock::lock_holder(m, branch) is Some
}

/// Whether a merge is under way on a branch.
pub fn merge_in_progress(kv: &MemoryKv, branch: BranchId) -> (r: bool)
    ensures
        r == merge_under_way(kv@, branch),
{
    MergeRecoveryGate::new().is_query_blocked(kv, branch) || merge_lock_holder(kv, branch).is_some()
}

/// Each dependency is found once, and never more than a limit allows.
pub proof fn law_dependencies_once(
    g: GraphView,
    m: Map<Seq<char>, Seq<u8>>,
    chain: Seq<BranchId>,
    edges: Seq<GraphEdge>,
    imports_only: bool,
    limit: nat,
    i: int,
    j: int,
)
    requires
        0 <= i < j < dependencies(g, m, chain, edges, imports_only).len(),
    ensures
        dependencies(g, m, chain, edges, imports_only)[i].0 != dependencies(
            g,
            m,
            chain,
            edges,
            imports_only,
        )[j].0,
        limited(dependencies(g, m, chain, edges, imports_only), limit).len() <= limit,
    decreases edges.len(),
{
    let all = dependencies(g, m, chain, edges, imports_only);
    let front = dependencies(g, m, chain, edges.drop_last(), imports_only);
    if j < front.len() {
        law_dependencies_once(g, m, chain, edges.drop_last(), imports_only, limit, i, j);
        assert(all[i] == front[i] && all[j] == front[j]);
    } else {
        assert(all[i] == front[i]);
        assert(!was_found(front, all[j].0));
    }
}

/// A list is by rank.
pub open spec fn ranked(s: Seq<RevisionView>, needle: Seq<char>) -> bool {
    forall|i: int, j: int|
        0 <= i < j < s.len() ==> ranks_before(#[trigger] s[i], #[trigger] s[j], needle)
}

/// A revision put in its place keeps a list by rank, and adds only itself.
proof fn lemma_put_by_rank(s: Seq<RevisionView>, x: RevisionView, needle: Seq<char>)
    requires
        ranked(s, needle),
    ensures
        ranked(put_by_rank(s, x, needle), needle),
        put_by_rank(s, x, needle).to_multiset() == s.to_multiset().insert(x),
        forall|y: RevisionView|
            put_by_rank(s, x, needle).contains(y) ==> y == x || #[trigger] s.contains(y),
    decreases s.len(),
{
    let t = put_by_rank(s, x, needle);
    if s.len() == 0 || ranks_before(s.last(), x, needle) {
        vstd::seq_lib::to_multiset_build(s, x);
        assert forall|i: int, j: int| 0 <= i < j < t.len() implies ranks_before(
            #[trigger] t[i],
            #[trigger] t[j],
            needle,
        ) by {
            if j == s.len() {
                assert(t[i] == s[i]);
                if i < s.len() - 1 {
                    assert(ranks_before(s[i], s[s.len() - 1], needle));
                }
            }
        }
        assert forall|y: RevisionView| t.contains(y) implies y == x || #[trigger] s.contains(y) by {
            let k = choose|k: int| 0 <= k < t.len() && t[k] == y;
            if k < s.len() {
                assert(s[k] == y);
            }
        }
    } else {
        let front = s.drop_last();
        assert(ranked(front, needle)) by {
            assert forall|i: int, j: int| 0 <= i < j < front.len() implies ranks_before(
                #[trigger] front[i],
                #[trigger] front[j],
                needle,
            ) by {
                assert(front[i] == s[i] && front[j] == s[j]);
            }
        }
        lemma_put_by_rank(front, x, needle);
        let f = put_by_rank(front, x, needle);
        assert(s =~= front.push(s.last()));
        vstd::seq_lib::to_multiset_build(front, s.last());
        vstd::seq_lib::to_multiset_build(f, s.last());
        assert(t.to_multiset() =~= s.to_multiset().insert(x));
        assert forall|i: int, j: int| 0 <= i < j < t.len() implies ranks_before(
            #[trigger] t[i],
            #[trigger] t[j],
            needle,
        ) by {
            if j == f.len() {
                assert(t[i] == f[i]);
                assert(f.contains(f[i]));
                if f[i] != x {
                    assert(front.contains(f[i]));
                    let k = choose|k: int| 0 <= k < front.len() && front[k] == f[i];
                    assert(ranks_before(s[k], s[s.len() - 1], needle));
                }
            } else {
                assert(t[i] == f[i] && t[j] == f[j]);
            }
        }
        assert forall|y: RevisionView| t.contains(y) implies y == x || #[trigger] s.contains(y) by {
            let k = choose|k: int| 0 <= k < t.len() && t[k] == y;
            if k < f.len() {
                assert(f.contains(y));
                if y != x {
                    assert(front.contains(y));
                    let l = choose|l: int| 0 <= l < front.len() && front[l] == y;
                    assert(s[l] == y);
                }
            } else {
                assert(s[s.len() - 1] == y);
            }
        }
    }
}

/// Where files are preferred, the same symbols are found, by rank.
pub proof fn law_ranked_symbols(s: Seq<RevisionView>, needle: Seq<char>)
    ensures
        ranked(by_rank(s, needle), needle),
        by_rank(s, needle).to_multiset() == s.to_multiset(),
    decreases s.len(),
{
    if s.len() > 0 {
        law_ranked_symbols(s.drop_last(), needle);
        lemma_put_by_rank(by_rank(s.drop_last(), needle), s.last(), needle);
        vstd::seq_lib::to_multiset_build(s.drop_last(), s.last());
        assert(s =~= s.drop_last().push(s.last()));
    } else {
        assert(by_rank(s, needle) =~= s);
    }
}

} // verus!
