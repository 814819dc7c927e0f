//! A graph as it is saved and read again.

use crate::graph;
use crate::graph::{
    FilePlace, GraphEdge, GraphView, InMemoryGraph, NodeIdentity, NodeKind, NodeRevision,
    RevisionStatus, RevisionView, copy_edges,
};
use crate::ids::{BranchId, IdentityId, NodeRevisionId};
use crate::persistence;
use crate::persistence::check_version;
use crate::seqs;
use crate::table;
use crate::text::owned;
use vstd::prelude::*;

verus! {

/// What is saved of a graph.
#[derive(Debug)]
pub struct GraphSnapshot {
    pub version: u32,
    pub identities: Vec<NodeIdentity>,
    pub revisions: Vec<NodeRevision>,
    pub edges: Vec<(NodeRevisionId, Vec<GraphEdge>)>,
    pub hubs: Vec<(FilePlace, NodeRevisionId)>,
}

/// Revisions that are put one after the other.
pub open spec fn all_put(revs: Seq<RevisionView>) -> Seq<RevisionView>
    decreases revs.len(),
{
    if revs.len() == 0 {
        revs
    } else {
        graph::put_into(all_put(revs.drop_last()), revs.last())
    }
}

/// The graph that a snapshot stands for.
pub open spec fn graph_in(s: GraphSnapshot) -> GraphView {
    GraphView {
        revisions: all_put(graph::revision_views(s.revisions@)),
        kinds: table::map_of(graph::identity_rows(s.identities@)),
        edges: table::map_of(graph::edge_rows(s.edges@)),
        hub_ids: table::map_of(graph::hub_rows(s.hubs@)),
    }
}

/// Every edge of a snapshot leaves a revision of it.
pub open spec fn edges_have_sources(s: GraphSnapshot) -> bool {
    forall|i: int| 0 <= i < s.edges@.len() ==> graph_in(s).rev((#[trigger] s.edges@[i]).0) is Some
}

/// A snapshot of a version holds a graph.
pub open spec fn saved(g: GraphView, version: u32, s: GraphSnapshot) -> bool {
    &&& s.version == version
    &&& graph::revision_views(s.revisions@) == g.revisions
    &&& table::map_of(graph::identity_rows(s.identities@)) == g.kinds
    &&& table::map_of(graph::edge_rows(s.edges@)) == g.edges
    &&& table::map_of(graph::hub_rows(s.hubs@)) == g.hub_ids
}

/// Saves a graph in a version.
pub fn save_graph_snapshot(g: &InMemoryGraph, version: u32) -> (r: GraphSnapshot)
    ensures
        saved(g@, version, r),
{
    let ghost held = g@.revisions;
    let all = g.revisions();
    let mut revisions: Vec<NodeRevision> = Vec::new();
    let mut i: usize = 0;
    while i < all.len()
        invariant
            i <= all.len(),
            revisions.len() == i,
            graph::revision_views(all@) == held,
            forall|k: int| 0 <= k < i ==> (#[trigger] revisions@[k])@ == all@[k]@,
        decreases all.len() - i,
    {
        revisions.push(all[i].copied());
        i = i + 1;
    }
    assert(graph::revision_views(revisions@) =~= held);
    GraphSnapshot {
        version,
        identities: g.identities(),
        revisions,
        edges: g.edge_lists(),
        hubs: g.hubs(),
    }
}

/// What makes a snapshot one that cannot be read.
pub open spec fn refusal(s: GraphSnapshot, want: u32) -> Option<Seq<char>> {
    if s.version != want {
        Some(persistence::version_message("graph"@, s.version, want))
    } else if !edges_have_sources(s) {
        Some("unknown revision"@)
    } else {
        None
    }
}

/// Reads a snapshot. One of another version is refused, and so is one with edges of a revision that
/// it does not hold.
pub fn load_graph_snapshot(s: &GraphSnapshot, want: u32) -> (r: Result<InMemoryGraph, String>)
    ensures
        match r {
            Ok(g) => refusal(*s, want) is None && g@ == graph_in(*s),
            Err(e) => refusal(*s, want) == Some(e@),
        },
{
    if let Err(e) = check_version("graph", s.version, want) {
        return Err(e);
    }
    let mut g = InMemoryGraph::new();
    let ghost ids = graph::identity_rows(s.identities@);
    let ghost revs = graph::revision_views(s.revisions@);
    let ghost lists = graph::edge_rows(s.edges@);
    let ghost hubs = graph::hub_rows(s.hubs@);
    let ghost no_edges = Map::<NodeRevisionId, Seq<GraphEdge>>::empty();
    let ghost no_hubs = Map::<(BranchId, Seq<char>), NodeRevisionId>::empty();
    assert(ids.take(0) =~= Seq::<(IdentityId, NodeKind)>::empty());
    let mut i: usize = 0;
    while i < s.identities.len()
        invariant
            i <= s.identities.len(),
            ids == graph::identity_rows(s.identities@),
            g@ == (GraphView {
                revisions: Seq::empty(),
                kinds: table::map_of(ids.take(i as int)),
                edges: no_edges,
                hub_ids: no_hubs,
            }),
        decreases s.identities.len() - i,
    {
        proof {
            table::lemma_map_of_step(ids, i as int);
        }
        g.put_identity(s.identities[i]);
        i = i + 1;
    }
    assert(ids.take(ids.len() as int) =~= ids);
    assert(revs.take(0) =~= Seq::<RevisionView>::empty());
    let mut i: usize = 0;
    while i < s.revisions.len()
        invariant
            i <= s.revisions.len(),
            revs == graph::revision_views(s.revisions@),
            g@ == (GraphView {
                revisions: all_put(revs.take(i as int)),
                kinds: table::map_of(ids),
                edges: no_edges,
                hub_ids: no_hubs,
            }),
        decreases s.revisions.len() - i,
    {
        assert(revs.take(i + 1).drop_last() =~= revs.take(i as int));
        g.put_revision(s.revisions[i].copied());
        i = i + 1;
    }
    assert(revs.take(revs.len() as int) =~= revs);
    assert(hubs.take(0) =~= Seq::<((BranchId, Seq<char>), NodeRevisionId)>::empty());
    let mut i: usize = 0;
    while i < s.hubs.len()
        invariant
            i <= s.hubs.len(),
            hubs == graph::hub_rows(s.hubs@),
            g@ == (GraphView {
                revisions: all_put(revs),
                kinds: table::map_of(ids),
                edges: no_edges,
                hub_ids: table::map_of(hubs.take(i as int)),
            }),
        decreases s.hubs.len() - i,
    {
        proof {
            table::lemma_map_of_step(hubs, i as int);
        }
        g.record_hub_id(s.hubs[i].0.branch, s.hubs[i].0.path.as_str(), s.hubs[i].1);
        i = i + 1;
    }
    assert(hubs.take(hubs.len() as int) =~= hubs);
    assert(lists.take(0) =~= Seq::<(NodeRevisionId, Seq<GraphEdge>)>::empty());
    let mut i: usize = 0;
    while i < s.edges.len()
        invariant
            i <= s.edges.len(),
            s.version == want,
            lists == graph::edge_rows(s.edges@),
            ids == graph::identity_rows(s.identities@),
            revs == graph::revision_views(s.revisions@),
            hubs == graph::hub_rows(s.hubs@),
            forall|k: int| 0 <= k < i ==> graph_in(*s).rev((#[trigger] s.edges@[k]).0) is Some,
            g@ == (GraphView {
                revisions: all_put(revs),
                kinds: table::map_of(ids),
                edges: table::map_of(lists.take(i as int)),
                hub_ids: table::map_of(hubs),
            }),
        decreases s.edges.len() - i,
    {
        proof {
            table::lemma_map_of_step(lists, i as int);
        }
        let rid = s.edges[i].0;
        assert(g@.rev(rid) == graph_in(*s).rev(s.edges@[i as int].0));
        if g.replace_edges_for_revision(rid, copy_edges(&s.edges[i].1)).is_err() {
            return Err(owned("unknown revision"));
        }
        i = i + 1;
    }
    assert(lists.take(lists.len() as int) =~= lists);
    Ok(g)
}

/// Revisions with ids of their own are put as they stand.
proof fn lemma_all_put(revs: Seq<RevisionView>)
    requires
        graph::ids_unique(revs),
    ensures
        all_put(revs) == revs,
    decreases revs.len(),
{
    if revs.len() > 0 {
        let front = revs.drop_last();
        let last = revs.last();
        assert forall|i: int, j: int| 0 <= i < j < front.len() implies (
        #[trigger] front[i]).revision_id != (#[trigger] front[j]).revision_id by {
            assert(front[i] == revs[i] && front[j] == revs[j]);
        }
        lemma_all_put(front);
        assert forall|j: int| 0 <= j < front.len() implies (#[trigger] front[j]).revision_id
            != last.revision_id by {
            assert(front[j] == revs[j] && last == revs[revs.len() - 1]);
        }
        lemma_put_last(front, last);
        assert(front.push(last) =~= revs);
    }
}

/// A revision with an id of its own is put last.
proof fn lemma_put_last(revs: Seq<RevisionView>, r: RevisionView)
    requires
        forall|j: int| 0 <= j < revs.len() ==> (#[trigger] revs[j]).revision_id != r.revision_id,
    ensures
        graph::put_into(revs, r) == revs.push(r),
    decreases revs.len(),
{
    if revs.len() > 0 {
        let rest = revs.drop_first();
        assert forall|j: int| 0 <= j < rest.len() implies (#[trigger] rest[j]).revision_id
            != r.revision_id by {
            assert(rest[j] == revs[j + 1]);
        }
        lemma_put_last(rest, r);
    }
    assert(graph::put_into(revs, r) =~= revs.push(r));
}

/// A revision of this id is among some.
pub open spec fn has_id(revs: Seq<RevisionView>, rid: NodeRevisionId) -> bool {
    exists|i: int| 0 <= i < revs.len() && (#[trigger] revs[i]).revision_id == rid
}

/// A graph has a revision of an id where its list has one.
proof fn lemma_has_id(g: GraphView, rid: NodeRevisionId)
    ensures
        has_id(g.revisions, rid) <==> g.rev(rid) is Some,
{
    let p = |r: RevisionView| r.revision_id == rid;
    seqs::lemma_first_is(g.revisions, p);
    if g.rev(rid) is Some {
        let r = g.rev(rid)->0;
        let i = choose|i: int| 0 <= i < g.revisions.len() && g.revisions[i] == r;
        assert(g.revisions[i].revision_id == rid);
    } else if has_id(g.revisions, rid) {
        let i = choose|i: int|
            0 <= i < g.revisions.len() && (#[trigger] g.revisions[i]).revision_id == rid;
        assert(!p(g.revisions[i]));
    }
}

/// Putting a revision keeps ids apart and adds no other id.
pub proof fn lemma_put_keeps(revs: Seq<RevisionView>, r: RevisionView)
    requires
        graph::ids_unique(revs),
    ensures
        graph::ids_unique(graph::put_into(revs, r)),
        forall|rid: NodeRevisionId| #[trigger]
            has_id(graph::put_into(revs, r), rid) <==> has_id(revs, rid) || rid == r.revision_id,
{
    let put = graph::put_into(revs, r);
    if has_id(revs, r.revision_id) {
        let at = choose|i: int|
            0 <= i < revs.len() && (#[trigger] revs[i]).revision_id == r.revision_id;
        assert forall|j: int| 0 <= j < at implies (#[trigger] revs[j]).revision_id
            != r.revision_id by {
            assert(revs[j].revision_id != revs[at].revision_id);
        }
        graph::lemma_put_into(revs, r, at);
        assert(put == revs.update(at, r));
        assert forall|i: int| 0 <= i < revs.len() implies (#[trigger] put[i]).revision_id
            == revs[i].revision_id by {}
        assert forall|rid: NodeRevisionId| #[trigger]
            has_id(put, rid) <==> has_id(revs, rid) || rid == r.revision_id by {
            if has_id(put, rid) {
                let i = choose|i: int|
                    0 <= i < put.len() && (#[trigger] put[i]).revision_id == rid;
                assert(revs[i].revision_id == rid);
            }
            if has_id(revs, rid) {
                let i = choose|i: int|
                    0 <= i < revs.len() && (#[trigger] revs[i]).revision_id == rid;
                assert(put[i].revision_id == rid);
            }
        }
    } else {
        lemma_put_last(revs, r);
        assert(put[revs.len() as int].revision_id == r.revision_id);
        assert forall|i: int| 0 <= i < revs.len() implies (#[trigger] revs[i]).revision_id
            != r.revision_id by {}
        assert forall|rid: NodeRevisionId| #[trigger]
            has_id(put, rid) <==> has_id(revs, rid) || rid == r.revision_id by {
            if has_id(put, rid) {
                let i = choose|i: int|
                    0 <= i < put.len() && (#[trigger] put[i]).revision_id == rid;
                if i < revs.len() {
                    assert(revs[i].revision_id == rid);
                }
            }
            if has_id(revs, rid) {
                let i = choose|i: int|
                    0 <= i < revs.len() && (#[trigger] revs[i]).revision_id == rid;
                assert(put[i].revision_id == rid);
            }
        }
    }
}

/// Taking revisions out keeps the others and their ids.
proof fn lemma_filter_keeps(revs: Seq<RevisionView>, rid: NodeRevisionId)
    requires
        graph::ids_unique(revs),
    ensures
        ({
            let left = revs.filter(|r: RevisionView| r.revision_id != rid);
            &&& graph::ids_unique(left)
            &&& forall|x: NodeRevisionId| #[trigger]
                has_id(left, x) <==> has_id(revs, x) && x != rid
        }),
    decreases revs.len(),
{
    reveal(Seq::filter);
    let keep = |r: RevisionView| r.revision_id != rid;
    let left = revs.filter(keep);
    if revs.len() > 0 {
        let front = revs.drop_last();
        let last = revs.last();
        assert forall|i: int, j: int| 0 <= i < j < front.len() implies (
        #[trigger] front[i]).revision_id != (#[trigger] front[j]).revision_id by {
            assert(front[i] == revs[i] && front[j] == revs[j]);
        }
        lemma_filter_keeps(front, rid);
        let some = front.filter(keep);
        assert(!has_id(front, last.revision_id)) by {
            if has_id(front, last.revision_id) {
                let i = choose|i: int|
                    0 <= i < front.len() && (#[trigger] front[i]).revision_id == last.revision_id;
                assert(revs[i].revision_id != revs[revs.len() - 1].revision_id);
            }
        }
        assert forall|x: NodeRevisionId| #[trigger]
            has_id(revs, x) <==> has_id(front, x) || x == last.revision_id by {
            if has_id(revs, x) {
                let i = choose|i: int| 0 <= i < revs.len() && (#[trigger] revs[i]).revision_id == x;
                if i < front.len() {
                    assert(front[i].revision_id == x);
                }
            }
            if has_id(front, x) {
                let i = choose|i: int|
                    0 <= i < front.len() && (#[trigger] front[i]).revision_id == x;
                assert(revs[i].revision_id == x);
            }
            assert(revs[revs.len() - 1] == last);
        }
        if keep(last) {
            assert(left == some.push(last));
            assert(!has_id(some, last.revision_id));
            assert forall|i: int| 0 <= i < some.len() implies (#[trigger] some[i]).revision_id
                != last.revision_id by {}
            assert forall|x: NodeRevisionId| #[trigger]
                has_id(left, x) <==> has_id(some, x) || x == last.revision_id by {
                if has_id(left, x) {
                    let i = choose|i: int|
                        0 <= i < left.len() && (#[trigger] left[i]).revision_id == x;
                    if i < some.len() {
                        assert(some[i].revision_id == x);
                    }
                }
                if has_id(some, x) {
                    let i = choose|i: int|
                        0 <= i < some.len() && (#[trigger] some[i]).revision_id == x;
                    assert(left[i].revision_id == x);
                }
                assert(left[some.len() as int] == last);
            }
        } else {
            assert(left == some);
        }
    }
}

/// No revision has the id of another, and edges leave revisions that are there.
pub open spec fn sound(g: GraphView) -> bool {
    &&& graph::ids_unique(g.revisions)
    &&& forall|rid: NodeRevisionId| #[trigger] g.edges.contains_key(rid) ==> g.rev(rid) is Some
}

/// A graph without revisions and edges is sound, and whatever is done to a sound graph leaves it
/// sound.
pub proof fn law_graph_stays_sound(
    g: GraphView,
    r: RevisionView,
    rid: NodeRevisionId,
    status: RevisionStatus,
    edges: Seq<GraphEdge>,
)
    ensures
        g.revisions.len() == 0 && g.edges == Map::<NodeRevisionId, Seq<GraphEdge>>::empty()
            ==> sound(g),
        sound(g) ==> sound(g.put(r)),
        sound(g) ==> sound(g.with_status(rid, status)),
        sound(g) ==> sound(g.without(rid)),
        sound(g) && g.rev(rid) is Some ==> sound(g.with_edges(rid, edges)),
{
    if sound(g) {
        lemma_put_sound(g, r);
        if g.rev(rid) is Some {
            lemma_put_sound(g, RevisionView { status, ..g.rev(rid)->0 });
        }
        lemma_filter_keeps(g.revisions, rid);
        let less = g.without(rid);
        assert forall|x: NodeRevisionId| #[trigger] less.edges.contains_key(x) implies less.rev(
            x,
        ) is Some by {
            assert(g.edges.contains_key(x));
            lemma_has_id(g, x);
            lemma_has_id(less, x);
        }
        let more = g.with_edges(rid, edges);
        assert forall|x: NodeRevisionId| g.rev(rid) is Some && #[trigger] more.edges.contains_key(
            x,
        ) implies more.rev(x) is Some by {
            assert(x == rid || g.edges.contains_key(x));
            assert(more.rev(x) == g.rev(x));
        }
    }
}

/// Putting a revision leaves a graph sound.
proof fn lemma_put_sound(g: GraphView, r: RevisionView)
    requires
        sound(g),
    ensures
        sound(g.put(r)),
{
    lemma_put_keeps(g.revisions, r);
    let more = g.put(r);
    assert forall|x: NodeRevisionId| #[trigger] more.edges.contains_key(x) implies more.rev(
        x,
    ) is Some by {
        assert(g.edges.contains_key(x));
        lemma_has_id(g, x);
        lemma_has_id(more, x);
    }
}

/// Revisions that are put one after the other have ids of their own.
proof fn lemma_all_put_unique(revs: Seq<RevisionView>)
    ensures
        graph::ids_unique(all_put(revs)),
    decreases revs.len(),
{
    if revs.len() > 0 {
        lemma_all_put_unique(revs.drop_last());
        lemma_put_keeps(all_put(revs.drop_last()), revs.last());
    }
}

/// A graph that is read from a snapshot is sound, whatever the snapshot holds.
pub proof fn law_read_graph_is_sound(s: GraphSnapshot, want: u32)
    requires
        refusal(s, want) is None,
    ensures
        sound(graph_in(s)),
{
    let g = graph_in(s);
    let lists = graph::edge_rows(s.edges@);
    lemma_all_put_unique(graph::revision_views(s.revisions@));
    assert forall|rid: NodeRevisionId| #[trigger] g.edges.contains_key(rid) implies g.rev(
        rid,
    ) is Some by {
        table::lemma_map_of_row(lists, rid);
        let i = choose|i: int| 0 <= i < lists.len() && (#[trigger] lists[i]).0 == rid;
        assert(s.edges@[i].0 == rid);
    }
}

/// A sound graph that was saved is read again as it was.
pub proof fn law_saved_graph_reads_back(g: GraphView, version: u32, s: GraphSnapshot)
    requires
        saved(g, version, s),
        sound(g),
    ensures
        refusal(s, version) is None,
        graph_in(s) == g,
{
    lemma_all_put(g.revisions);
    assert(graph_in(s) =~= g);
    assert forall|i: int| 0 <= i < s.edges@.len() implies graph_in(s).rev(
        (#[trigger] s.edges@[i]).0,
    ) is Some by {
        let lists = graph::edge_rows(s.edges@);
        table::lemma_map_of_has(lists, i);
        assert(lists[i].0 == s.edges@[i].0);
    }
}

} // verus!
