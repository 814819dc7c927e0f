//! The bindings of a branch, brought in line with the graph.

use crate::graph;
use crate::graph::{GraphView, InMemoryGraph, RevisionStatus, RevisionView};
use crate::hex;
use crate::hex::parse_strict_id;
use crate::ids;
use crate::ids::{BranchId, IdentityId, NodeRevisionId};
use crate::keys;
use crate::keys::binding_prefix_text;
use crate::kv;
use crate::kv::MemoryKv;
use crate::revision_cow::{Layer, RevisionIndexCow};
use crate::text;
use crate::text::{chars_of, chars_split, text_of};
use vstd::prelude::*;

verus! {

/// What an identity is to be bound to, if anything.
pub type SyncAction = (IdentityId, Option<NodeRevisionId>);

/// The identity that a binding key names.
pub open spec fn key_identity(key: Seq<char>) -> Option<IdentityId> {
    let p = text::pieces(key, ':');
    if p.len() == 3 {
        match hex::strict_id(p[2]) {
            Some(b) => Some(IdentityId(ids::array_of(b))),
            None => None,
        }
    } else {
        None
    }
}

/// Reads the identity that a binding key names.
fn read_key_identity(key: &str) -> (r: Option<IdentityId>)
    ensures
        r == key_identity(key@),
{
    let cs = chars_of(key);
    let parts = chars_split(&cs, ':');
    assert(text::chars_views(parts@).len() == parts@.len());
    if parts.len() != 3 {
        return None;
    }
    assert(text::chars_views(parts@)[2] == parts@[2]@);
    let t = text_of(&parts[2]);
    match parse_strict_id(t.as_str()) {
        Some(b) => {
            proof {
                ids::lemma_array_of(b);
            }
            Some(IdentityId(b))
        },
        None => None,
    }
}

/// The revision that an identity goes by on a branch, if it is in force.
pub open spec fn in_force(g: GraphView, branch: BranchId, iid: IdentityId) -> Option<
    NodeRevisionId,
> {
    match g.primary(branch, iid) {
        Some(r) => if r.status == RevisionStatus::Active || r.status == RevisionStatus::Speculative {
            Some(r.revision_id)
        } else {
            None
        },
        None => None,
    }
}

/// Finds the revision that an identity goes by on a branch, if it is in force.
fn find_in_force(graph: &InMemoryGraph, branch: BranchId, iid: IdentityId) -> (r: Option<
    NodeRevisionId,
>)
    ensures
        r == in_force(graph@, branch, iid),
{
    match graph.primary_revision_for_identity(branch, iid) {
        Some(rev) => match rev.status {
            RevisionStatus::Active => Some(rev.revision_id),
            RevisionStatus::Speculative => Some(rev.revision_id),
            _ => None,
        },
        None => None,
    }
}

/// What is to be done about the bindings that are there.
pub open spec fn actions_for_rows(rows: Seq<(String, Vec<u8>)>, g: GraphView, branch: BranchId) -> Seq<
    SyncAction,
>
    decreases rows.len(),
{
    if rows.len() == 0 {
        Seq::empty()
    } else {
        let front = actions_for_rows(rows.drop_last(), g, branch);
        match key_identity(rows.last().0@) {
            Some(i) => front.push((i, in_force(g, branch, i))),
            None => front,
        }
    }
}

/// Something is to be done about an identity.
pub open spec fn acts_on(a: Seq<SyncAction>, iid: IdentityId) -> bool {
    exists|i: int| 0 <= i < a.len() && (#[trigger] a[i]).0 == iid
}

/// Whether something is to be done about an identity.
fn does_act_on(a: &Vec<SyncAction>, iid: IdentityId) -> (r: bool)
    ensures
        r == acts_on(a@, iid),
{
    let mut i: usize = 0;
    while i < a.len()
        invariant
            i <= a.len(),
            forall|j: int| 0 <= j < i ==> (#[trigger] a@[j]).0 != iid,
        decreases a.len() - i,
    {
        if a[i].0 == iid {
            return true;
        }
        i = i + 1;
    }
    false
}

/// What is to be done besides about identities that are not bound.
pub open spec fn actions_for_revisions(
    a: Seq<SyncAction>,
    revs: Seq<RevisionView>,
    g: GraphView,
    branch: BranchId,
) -> Seq<SyncAction>
    decreases revs.len(),
{
    if revs.len() == 0 {
        a
    } else {
        let front = actions_for_revisions(a, revs.drop_last(), g, branch);
        let i = revs.last().identity_id;
        if revs.last().branch_id == branch && !acts_on(front, i) && in_force(g, branch, i) is Some {
            front.push((i, in_force(g, branch, i)))
        } else {
            front
        }
    }
}

/// `a` is to be done about the bindings of a branch.
pub open spec fn to_be_done(
    m: Map<Seq<char>, Seq<u8>>,
    g: GraphView,
    branch: BranchId,
    a: Seq<SyncAction>,
) -> bool {
    exists|rows: Seq<(String, Vec<u8>)>| #[trigger]
        kv::scanned(m, keys::binding_prefix(branch), rows) && a == actions_for_revisions(
            actions_for_rows(rows, g, branch),
            g.revisions,
            g,
            branch,
        )
}

/// Finds what is to be done about the bindings of a branch.
pub fn sync_actions(kv: &MemoryKv, graph: &InMemoryGraph, branch: BranchId) -> (r: Vec<SyncAction>)
    ensures
        to_be_done(kv@, graph@, branch, r@),
{
    let prefix = binding_prefix_text(branch);
    let rows = kv.scan_prefix(prefix.as_str());
    let mut out: Vec<SyncAction> = Vec::new();
    let mut i: usize = 0;
    assert(rows@.take(0) =~= Seq::<(String, Vec<u8>)>::empty());
    while i < rows.len()
        invariant
            i <= rows.len(),
            out@ == actions_for_rows(rows@.take(i as int), graph@, branch),
        decreases rows.len() - i,
    {
        proof {
            assert(rows@.take(i + 1).drop_last() =~= rows@.take(i as int));
            assert(rows@.take(i + 1).last() == rows@[i as int]);
        }
        if let Some(id) = read_key_identity(rows[i].0.as_str()) {
            let target = find_in_force(graph, branch, id);
            out.push((id, target));
        }
        i = i + 1;
    }
    assert(rows@.take(rows@.len() as int) =~= rows@);
    let ghost first = out@;
    let revs = graph.revisions();
    let ghost s = graph@.revisions;
    let mut k: usize = 0;
    assert(s.take(0) =~= Seq::<RevisionView>::empty());
    while k < revs.len()
        invariant
            k <= revs.len(),
            s == graph::revision_views(revs@),
            out@ == actions_for_revisions(first, s.take(k as int), graph@, branch),
        decreases revs.len() - k,
    {
        let r = &revs[k];
        proof {
            assert(s.take(k + 1).drop_last() =~= s.take(k as int));
            assert(s.take(k + 1).last() == r@);
        }
        if r.branch_id == branch && !does_act_on(&out, r.identity_id) {
            let target = find_in_force(graph, branch, r.identity_id);
            if target.is_some() {
                out.push((r.identity_id, target));
            }
        }
        k = k + 1;
    }
    assert(s.take(s.len() as int) =~= s);
    out
}

/// The store once actions were taken.
pub open spec fn actions_taken(m: Map<Seq<char>, Seq<u8>>, branch: BranchId, a: Seq<SyncAction>) -> Map<
    Seq<char>,
    Seq<u8>,
>
    decreases a.len(),
{
    if a.len() == 0 {
        m
    } else {
        let front = actions_taken(m, branch, a.drop_last());
        match a.last().1 {
            Some(r) => front.insert(keys::binding_key(branch, a.last().0), r.0@),
            None => front.remove(keys::binding_key(branch, a.last().0)),
        }
    }
}

/// What is bound in memory once actions were taken.
pub open spec fn local_after(local: Map<IdentityId, NodeRevisionId>, a: Seq<SyncAction>) -> Map<
    IdentityId,
    NodeRevisionId,
>
    decreases a.len(),
{
    if a.len() == 0 {
        local
    } else {
        let front = local_after(local, a.drop_last());
        match a.last().1 {
            Some(r) => front.insert(a.last().0, r),
            None => front.remove(a.last().0),
        }
    }
}

/// Takes actions on the bindings of an index.
fn take_actions(ri: &mut RevisionIndexCow, kv: &mut MemoryKv, a: &Vec<SyncAction>)
    requires
        old(ri).layers().len() > 0,
    ensures
        final(kv)@ == actions_taken(old(kv)@, old(ri).layers()[0].branch, a@),
        final(ri).layers() == old(ri).layers().update(
            0,
            Layer {
                branch: old(ri).layers()[0].branch,
                local: local_after(old(ri).layers()[0].local, a@),
            },
        ),
{
    let ghost m0 = kv@;
    let ghost l0 = ri.layers();
    let ghost branch = l0[0].branch;
    let mut i: usize = 0;
    proof {
        assert(a@.take(0) =~= Seq::<SyncAction>::empty());
        assert(l0 =~= l0.update(0, Layer { branch, local: l0[0].local }));
    }
    while i < a.len()
        invariant
            i <= a.len(),
            l0.len() > 0,
            branch == l0[0].branch,
            kv@ == actions_taken(m0, branch, a@.take(i as int)),
            ri.layers() == l0.update(
                0,
                Layer { branch, local: local_after(l0[0].local, a@.take(i as int)) },
            ),
        decreases a.len() - i,
    {
        proof {
            assert(a@.take(i + 1).drop_last() =~= a@.take(i as int));
            assert(a@.take(i + 1).last() == a@[i as int]);
        }
        match a[i].1 {
            Some(r) => ri.bind(kv, a[i].0, r),
            None => ri.unbind(kv, a[i].0),
        }
        assert(ri.layers() =~= l0.update(
            0,
            Layer { branch, local: local_after(l0[0].local, a@.take(i + 1)) },
        ));
        i = i + 1;
    }
    assert(a@.take(a@.len() as int) =~= a@);
}

/// Brings the bindings of an index in line with the graph.
pub fn sync_revision_index_from_graph(
    ri: &mut RevisionIndexCow,
    kv: &mut MemoryKv,
    graph: &InMemoryGraph,
)
    ensures
        exists|a: Seq<SyncAction>| #[trigger]
            to_be_done(old(kv)@, graph@, old(ri).layers()[0].branch, a) && final(kv)@
                == actions_taken(old(kv)@, old(ri).layers()[0].branch, a) && final(ri).layers()
                == old(ri).layers().update(
                0,
                Layer {
                    branch: old(ri).layers()[0].branch,
                    local: local_after(old(ri).layers()[0].local, a),
                },
            ),
{
    let branch = ri.branch_id();
    let a = sync_actions(kv, graph, branch);
    take_actions(ri, kv, &a);
}

/// What is to be done follows the graph, and leaves out no identity with a revision in force.
proof fn lemma_actions(
    rows: Seq<(String, Vec<u8>)>,
    first: Seq<SyncAction>,
    revs: Seq<RevisionView>,
    g: GraphView,
    branch: BranchId,
)
    requires
        forall|i: int|
            0 <= i < first.len() ==> (#[trigger] first[i]).1 == in_force(g, branch, first[i].0),
    ensures
        forall|i: int|
            0 <= i < actions_for_revisions(first, revs, g, branch).len() ==> (
            #[trigger] actions_for_revisions(first, revs, g, branch)[i]).1 == in_force(
                g,
                branch,
                actions_for_revisions(first, revs, g, branch)[i].0,
            ),
        forall|k: int|
            0 <= k < revs.len() && (#[trigger] revs[k]).branch_id == branch && in_force(
                g,
                branch,
                revs[k].identity_id,
            ) is Some ==> acts_on(
                actions_for_revisions(first, revs, g, branch),
                revs[k].identity_id,
            ),
    decreases revs.len(),
{
    if revs.len() > 0 {
        lemma_actions(rows, first, revs.drop_last(), g, branch);
        let front = actions_for_revisions(first, revs.drop_last(), g, branch);
        let all = actions_for_revisions(first, revs, g, branch);
        assert forall|k: int|
            0 <= k < revs.len() && (#[trigger] revs[k]).branch_id == branch && in_force(
                g,
                branch,
                revs[k].identity_id,
            ) is Some implies acts_on(all, revs[k].identity_id) by {
            if k < revs.len() - 1 {
                assert(revs.drop_last()[k] == revs[k]);
                let i = choose|i: int|
                    0 <= i < front.len() && (#[trigger] front[i]).0 == revs[k].identity_id;
                assert(all[i] == front[i]);
            } else if acts_on(front, revs[k].identity_id) {
                let i = choose|i: int|
                    0 <= i < front.len() && (#[trigger] front[i]).0 == revs[k].identity_id;
                assert(all[i] == front[i]);
            } else {
                assert(all[front.len() as int].0 == revs[k].identity_id);
            }
        }
    }
}

/// What is to be done about bindings that are there follows the graph.
proof fn lemma_row_actions(rows: Seq<(String, Vec<u8>)>, g: GraphView, branch: BranchId)
    ensures
        forall|i: int|
            0 <= i < actions_for_rows(rows, g, branch).len() ==> (#[trigger] actions_for_rows(
                rows,
                g,
                branch,
            )[i]).1 == in_force(g, branch, actions_for_rows(rows, g, branch)[i].0),
    decreases rows.len(),
{
    if rows.len() > 0 {
        lemma_row_actions(rows.drop_last(), g, branch);
    }
}

/// What is written down of a binding.
pub open spec fn bound_bytes(r: Option<NodeRevisionId>) -> Option<Seq<u8>> {
    match r {
        Some(rid) => Some(rid.0@),
        None => None,
    }
}

/// Taking actions binds each identity that they are about as they say, and no other.
proof fn lemma_taken(
    m: Map<Seq<char>, Seq<u8>>,
    branch: BranchId,
    a: Seq<SyncAction>,
    g: GraphView,
    iid: IdentityId,
)
    requires
        forall|i: int| 0 <= i < a.len() ==> (#[trigger] a[i]).1 == in_force(g, branch, a[i].0),
    ensures
        kv::value_at(actions_taken(m, branch, a), keys::binding_key(branch, iid)) == (if acts_on(a, iid) {
            match in_force(g, branch, iid) {
                Some(r) => Some(r.0@),
                None => None,
            }
        } else {
            kv::value_at(m, keys::binding_key(branch, iid))
        }),
    decreases a.len(),
{
    if a.len() > 0 {
        let front = a.drop_last();
        assert forall|i: int| 0 <= i < front.len() implies (#[trigger] front[i]).1 == in_force(
            g,
            branch,
            front[i].0,
        ) by {
            assert(front[i] == a[i]);
        }
        lemma_taken(m, branch, front, g, iid);
        keys::lemma_binding_key_injective(branch, a.last().0, branch, iid);
        assert(a.last() == a[a.len() - 1]);
        if a.last().0 != iid {
            if acts_on(a, iid) {
                let i = choose|i: int| 0 <= i < a.len() && (#[trigger] a[i]).0 == iid;
                assert(front[i] == a[i]);
            }
            if acts_on(front, iid) {
                let i = choose|i: int| 0 <= i < front.len() && (#[trigger] front[i]).0 == iid;
                assert(a[i] == front[i]);
            }
        }
    }
}

/// Once bindings are in line with the graph, an identity with a revision in force on the branch is
/// bound to it, and whatever was touched is bound as the graph says.
pub proof fn law_bindings_follow_graph(
    m: Map<Seq<char>, Seq<u8>>,
    g: GraphView,
    branch: BranchId,
    a: Seq<SyncAction>,
    k: int,
)
    requires
        to_be_done(m, g, branch, a),
        0 <= k < g.revisions.len(),
        g.revisions[k].branch_id == branch,
        in_force(g, branch, g.revisions[k].identity_id) is Some,
    ensures
        kv::value_at(
            actions_taken(m, branch, a),
            keys::binding_key(branch, g.revisions[k].identity_id),
        ) == bound_bytes(in_force(g, branch, g.revisions[k].identity_id)),
{
    let rows = choose|rows: Seq<(String, Vec<u8>)>| #[trigger]
        kv::scanned(m, keys::binding_prefix(branch), rows) && a == actions_for_revisions(
            actions_for_rows(rows, g, branch),
            g.revisions,
            g,
            branch,
        );
    lemma_row_actions(rows, g, branch);
    lemma_actions(rows, actions_for_rows(rows, g, branch), g.revisions, g, branch);
    lemma_taken(m, branch, a, g, g.revisions[k].identity_id);
}

} // verus!
