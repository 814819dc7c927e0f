//! Batches of edge changes that a merge makes, and their undoing.

use crate::edge_json;
use crate::edge_json::{bytes_value, edges_value, read_array16, read_edges, read_u32, value_part};
use crate::graph::{GraphEdge, GraphView, InMemoryGraph, copy_edges};
use crate::hex;
use crate::ids::{MergeId, NodeRevisionId};
use crate::json;
use crate::json::{JsonTree, field, number_value, object_value, value_from_bytes, value_to_bytes};
use crate::keys;
use crate::kv;
use crate::kv::MemoryKv;
use crate::saga;
use crate::saga::{MergeSagaOrchestrator, payload_key_text, payload_prefix_text};
use crate::text;
use vstd::prelude::*;

verus! {

/// The edges of one revision before and after a change.
#[derive(Debug, Clone)]
pub struct SagaEdgeBatch {
    pub seq: u32,
    pub target_revision_id: NodeRevisionId,
    /// Edges before the change, restored when it is undone.
    pub prior_edges: Vec<GraphEdge>,
    /// Edges after the change.
    pub edges: Vec<GraphEdge>,
}

/// What a batch holds.
pub struct BatchView {
    pub seq: u32,
    pub target: NodeRevisionId,
    pub prior: Seq<GraphEdge>,
    pub edges: Seq<GraphEdge>,
}

impl View for SagaEdgeBatch {
    type V = BatchView;

    open spec fn view(&self) -> BatchView {
        BatchView {
            seq: self.seq,
            target: self.target_revision_id,
            prior: self.prior_edges@,
            edges: self.edges@,
        }
    }
}

/// What the batches of a list hold.
pub open spec fn batch_views(v: Seq<SagaEdgeBatch>) -> Seq<BatchView> {
    v.map_values(|b: SagaEdgeBatch| b@)
}

/// The fields of a batch.
pub open spec fn batch_fields(b: BatchView) -> Seq<(Seq<char>, JsonTree)> {
    seq![
        ("seq"@, JsonTree::Number(b.seq as u64)),
        ("target_revision_id"@, edge_json::bytes_tree(b.target.0@)),
        ("prior_edges"@, edge_json::edges_tree(b.prior)),
        ("edges"@, edge_json::edges_tree(b.edges)),
    ]
}

/// A batch as a JSON value: an object with its four fields.
pub open spec fn batch_tree(b: BatchView) -> JsonTree {
    JsonTree::Object(json::members(batch_fields(b)))
}

/// The batch that a JSON value stands for.
pub open spec fn tree_batch(t: JsonTree) -> Option<BatchView> {
    match (
        edge_json::then_read(
            edge_json::part_of(t, "seq"@, 0, 4),
            |x: JsonTree| edge_json::tree_u32(x),
        ),
        edge_json::then_read(
            edge_json::part_of(t, "target_revision_id"@, 1, 4),
            |x: JsonTree| edge_json::tree_array16(x),
        ),
        edge_json::then_read(
            edge_json::part_of(t, "prior_edges"@, 2, 4),
            |x: JsonTree| edge_json::tree_edges(x),
        ),
        edge_json::then_read(
            edge_json::part_of(t, "edges"@, 3, 4),
            |x: JsonTree| edge_json::tree_edges(x),
        ),
    ) {
        (Some(seq), Some(target), Some(prior), Some(edges)) => Some(
            BatchView { seq, target: NodeRevisionId(target), prior, edges },
        ),
        _ => None,
    }
}

/// The bytes of a batch.
pub open spec fn batch_bytes(b: BatchView) -> Seq<u8> {
    json::tree_bytes(batch_tree(b))
}

/// The batch that bytes stand for.
pub open spec fn batch_at(bytes: Seq<u8>) -> Option<BatchView> {
    match json::tree_of_bytes(bytes) {
        Some(t) => tree_batch(t),
        None => None,
    }
}

/// A batch is read as it was written.
pub proof fn law_batch_reads_back(b: BatchView)
    ensures
        tree_batch(batch_tree(b)) == Some(b),
        json::plain(batch_tree(b), 16),
{
    let f = batch_fields(b);
    reveal_strlit("seq");
    reveal_strlit("target_revision_id");
    reveal_strlit("prior_edges");
    reveal_strlit("edges");
    assert(f[0].0.len() == 3);
    assert(f[1].0.len() == 18);
    assert(f[2].0.len() == 11);
    assert(f[3].0.len() == 5);
    assert forall|i: int, j: int| 0 <= i < j < f.len() implies (#[trigger] f[i]).0 != (
    #[trigger] f[j]).0 by {
        assert(i == 0 || i == 1 || i == 2);
    }
    json::lemma_member_found(f, 0);
    json::lemma_member_found(f, 1);
    json::lemma_member_found(f, 2);
    json::lemma_member_found(f, 3);
    edge_json::lemma_array16_read(b.target.0);
    edge_json::lemma_edges_read(b.prior);
    edge_json::lemma_edges_read(b.edges);
    edge_json::lemma_bytes_plain(b.target.0@, 6);
    edge_json::lemma_edges_plain(b.prior);
    edge_json::lemma_edges_plain(b.edges);
    json::lemma_plain_object(f, 6);
    json::lemma_plain_deeper(batch_tree(b), 7, 16);
}

/// Writes a batch.
fn write_batch(b: &SagaEdgeBatch) -> (r: Option<Vec<u8>>)
    ensures
        r matches Some(v) && v@ == batch_bytes(b@),
{
    let fields = vec![
        field("seq", number_value(b.seq as u64)),
        field("target_revision_id", bytes_value(&b.target_revision_id.0)),
        field("prior_edges", edges_value(&b.prior_edges)),
        field("edges", edges_value(&b.edges)),
    ];
    assert(json::field_trees(fields@) =~= batch_fields(b@));
    value_to_bytes(&object_value(fields))
}

/// Reads the edges that are one of the parts of a batch.
fn part_edges(v: &serde_json::Value, name: &str, place: usize) -> (r: Option<Vec<GraphEdge>>)
    requires
        place < 4,
    ensures
        ({
            let want = edge_json::then_read(
                edge_json::part_of(json::value_tree(*v), name@, place as int, 4),
                |x: JsonTree| edge_json::tree_edges(x),
            );
            match r {
                Some(e) => want == Some(e@),
                None => want is None,
            }
        }),
{
    match value_part(v, name, place, 4) {
        Some(x) => read_edges(x),
        None => None,
    }
}

/// Reads a batch.
fn read_batch(bytes: &Vec<u8>) -> (r: Option<SagaEdgeBatch>)
    ensures
        match r {
            Some(b) => batch_at(bytes@) == Some(b@),
            None => batch_at(bytes@) is None,
        },
        forall|b: BatchView| bytes@ == #[trigger] batch_bytes(b) ==> batch_at(bytes@) == Some(b),
{
    let got = value_from_bytes(bytes);
    proof {
        assert forall|b: BatchView| bytes@ == #[trigger] batch_bytes(b) implies batch_at(bytes@)
            == Some(b) by {
            law_batch_reads_back(b);
        }
    }
    let v = match got {
        Some(v) => v,
        None => {
            return None;
        },
    };
    let seq = match value_part(&v, "seq", 0, 4) {
        Some(x) => read_u32(x),
        None => None,
    };
    let target = match value_part(&v, "target_revision_id", 1, 4) {
        Some(x) => read_array16(x),
        None => None,
    };
    match (seq, target, part_edges(&v, "prior_edges", 2), part_edges(&v, "edges", 3)) {
        (Some(seq), Some(target), Some(prior_edges), Some(edges)) => Some(
            SagaEdgeBatch {
                seq,
                target_revision_id: NodeRevisionId(target),
                prior_edges,
                edges,
            },
        ),
        _ => None,
    }
}

/// A graph with a batch applied.
pub open spec fn batch_applied(g: GraphView, b: BatchView) -> GraphView {
    g.with_edges(b.target, b.edges)
}

/// A graph with the edges from before a batch, where its revision is there.
pub open spec fn batch_undone(g: GraphView, b: BatchView) -> GraphView {
    if g.rev(b.target) is Some {
        g.with_edges(b.target, b.prior)
    } else {
        g
    }
}

/// A graph with batches undone, the last first.
pub open spec fn compensated(g: GraphView, batches: Seq<BatchView>) -> GraphView
    decreases batches.len(),
{
    if batches.len() == 0 {
        g
    } else {
        compensated(batch_undone(g, batches.last()), batches.drop_last())
    }
}

/// A graph with batches applied, the first first.
pub open spec fn all_applied(g: GraphView, batches: Seq<BatchView>) -> GraphView
    decreases batches.len(),
{
    if batches.len() == 0 {
        g
    } else {
        batch_applied(all_applied(g, batches.drop_last()), batches.last())
    }
}

/// Replaces the edges of the batch's revision.
pub fn apply_saga_edge_batch(graph: &mut InMemoryGraph, batch: &SagaEdgeBatch) -> (r: Result<
    (),
    &'static str,
>)
    ensures
        r is Ok <==> old(graph)@.rev(batch.target_revision_id) is Some,
        final(graph)@ == (if r is Ok {
            batch_applied(old(graph)@, batch@)
        } else {
            old(graph)@
        }),
{
    graph.replace_edges_for_revision(batch.target_revision_id, copy_edges(&batch.edges))
}

/// Undoes batches, the last first.
pub fn compensate_saga_edge_batches(graph: &mut InMemoryGraph, batches: &Vec<SagaEdgeBatch>)
    ensures
        final(graph)@ == compensated(old(graph)@, batch_views(batches@)),
{
    let mut n: usize = batches.len();
    let ghost bv = batch_views(batches@);
    assert(bv.take(n as int) =~= bv);
    while n > 0
        invariant
            n <= batches.len(),
            bv == batch_views(batches@),
            compensated(graph@, bv.take(n as int)) == compensated(old(graph)@, bv),
        decreases n,
    {
        let b = &batches[n - 1];
        assert(bv.take(n as int).last() == b@);
        assert(bv.take(n as int).drop_last() =~= bv.take(n - 1));
        let _ = graph.replace_edges_for_revision(
            b.target_revision_id,
            copy_edges(&b.prior_edges),
        );
        n = n - 1;
    }
}

/// Keeps a batch on record.
pub fn persist_saga_edge_batch(kv: &mut MemoryKv, merge_id: MergeId, batch: &SagaEdgeBatch)
    ensures
        final(kv)@ == old(kv)@.insert(saga::payload_key(merge_id, batch.seq), batch_bytes(batch@)),
{
    if let Some(bytes) = write_batch(batch) {
        kv.set(payload_key_text(merge_id, batch.seq).as_str(), bytes);
    }
}

/// How many batches can be applied one after the other, up to the first whose revision is missing.
pub open spec fn applicable(g: GraphView, batches: Seq<BatchView>) -> nat
    decreases batches.len(),
{
    if batches.len() == 0 {
        0
    } else {
        let n = applicable(g, batches.drop_last());
        if n < batches.len() - 1 || g.rev(batches.last().target) is None {
            n
        } else {
            n + 1
        }
    }
}

/// A store with batches on record, and each marked as done unless marks are lost.
pub open spec fn all_kept(
    m: Map<Seq<char>, Seq<u8>>,
    merge_id: MergeId,
    loses: bool,
    batches: Seq<BatchView>,
) -> Map<Seq<char>, Seq<u8>>
    decreases batches.len(),
{
    if batches.len() == 0 {
        m
    } else {
        let b = batches.last();
        let kept = all_kept(m, merge_id, loses, batches.drop_last()).insert(
            saga::payload_key(merge_id, b.seq),
            batch_bytes(b),
        );
        if loses {
            kept
        } else {
            kept.insert(saga::marker_key(merge_id, b.seq), seq![1u8])
        }
    }
}

/// Once a batch cannot be applied, those after it are not.
proof fn lemma_applicable_stops(g: GraphView, batches: Seq<BatchView>, i: int)
    requires
        0 <= i < batches.len(),
        applicable(g, batches.take(i)) == i,
        g.rev(batches[i].target) is None,
    ensures
        applicable(g, batches) == i,
    decreases batches.len(),
{
    let front = batches.drop_last();
    if i == front.len() {
        assert(batches.take(i) =~= front);
    } else {
        assert(front.take(i) =~= batches.take(i));
        lemma_applicable_stops(g, front, i);
    }
}

/// Applies batches one after the other, keeping each on record and marking it as done, up to the
/// first whose revision is missing.
pub fn apply_and_persist_saga_batches(
    graph: &mut InMemoryGraph,
    kv: &mut MemoryKv,
    merge_id: MergeId,
    saga: &MergeSagaOrchestrator,
    batches: &Vec<SagaEdgeBatch>,
) -> (r: Result<(), &'static str>)
    ensures
        ({
            let bv = batch_views(batches@);
            let n = applicable(old(graph)@, bv);
            &&& r is Ok <==> n == bv.len()
            &&& final(graph)@ == all_applied(old(graph)@, bv.take(n as int))
            &&& final(kv)@ == all_kept(old(kv)@, merge_id, saga.loses(), bv.take(n as int))
        }),
{
    let ghost bv = batch_views(batches@);
    let ghost g0 = graph@;
    let ghost m0 = kv@;
    let mut i: usize = 0;
    assert(bv.take(0) =~= Seq::<BatchView>::empty());
    while i < batches.len()
        invariant
            i <= batches.len(),
            bv == batch_views(batches@),
            g0 == old(graph)@,
            m0 == old(kv)@,
            applicable(g0, bv.take(i as int)) == i,
            graph@ == all_applied(g0, bv.take(i as int)),
            kv@ == all_kept(m0, merge_id, saga.loses(), bv.take(i as int)),
        decreases batches.len() - i,
    {
        let batch = &batches[i];
        proof {
            assert(bv[i as int] == batch@);
            assert(bv.take(i + 1).drop_last() =~= bv.take(i as int));
            assert(bv.take(i + 1).last() == batch@);
            lemma_applied_keeps_revisions(g0, bv.take(i as int));
            assert(graph@.rev(batch.target_revision_id) == g0.rev(batch.target_revision_id));
        }
        match apply_saga_edge_batch(graph, batch) {
            Ok(()) => {},
            Err(e) => {
                proof {
                    lemma_applicable_stops(g0, bv, i as int);
                }
                return Err(e);
            },
        }
        persist_saga_edge_batch(kv, merge_id, batch);
        saga.persist_batch_marker(kv, merge_id, batch.seq);
        i = i + 1;
    }
    assert(bv.take(bv.len() as int) =~= bv);
    Ok(())
}

/// The batches that rows hold, in order; a row that holds none is passed over.
pub open spec fn batches_in(rows: Seq<(String, Vec<u8>)>) -> Seq<BatchView>
    decreases rows.len(),
{
    if rows.len() == 0 {
        Seq::empty()
    } else {
        match batch_at(rows.last().1@) {
            Some(b) => batches_in(rows.drop_last()).push(b),
            None => batches_in(rows.drop_last()),
        }
    }
}

/// Numbers never go down.
pub open spec fn in_sequence(s: Seq<BatchView>) -> bool {
    forall|i: int, j: int| 0 <= i < j < s.len() ==> (#[trigger] s[i]).seq <= (#[trigger] s[j]).seq
}

/// `loaded` are the batches on record for a merge, by number.
pub open spec fn batches_on_record(
    m: Map<Seq<char>, Seq<u8>>,
    merge_id: MergeId,
    loaded: Seq<BatchView>,
) -> bool {
    &&& in_sequence(loaded)
    &&& exists|rows: Seq<(String, Vec<u8>)>| #[trigger]
        kv::scanned(m, saga::payload_prefix(merge_id), rows) && loaded.to_multiset()
            == batches_in(rows).to_multiset()
}

/// Reads the batches of a merge, by number.
pub fn load_saga_edge_batches(kv: &MemoryKv, merge_id: MergeId) -> (r: Vec<SagaEdgeBatch>)
    ensures
        batches_on_record(kv@, merge_id, batch_views(r@)),
        forall|b: BatchView|
            #![trigger saga::payload_key(merge_id, b.seq), batch_bytes(b)]
            kv::value_at(kv@, saga::payload_key(merge_id, b.seq)) == Some(batch_bytes(b)) ==> batch_views(
                r@,
            ).contains(b),
{
    let rows = kv.scan_prefix(payload_prefix_text(merge_id).as_str());
    let mut out: Vec<SagaEdgeBatch> = Vec::new();
    let mut i: usize = 0;
    proof {
        assert(rows@.take(0) =~= Seq::<(String, Vec<u8>)>::empty());
        assert(batch_views(out@) =~= Seq::<BatchView>::empty());
    }
    while i < rows.len()
        invariant
            i <= rows.len(),
            kv::scanned(kv@, saga::payload_prefix(merge_id), rows@),
            in_sequence(batch_views(out@)),
            batch_views(out@).to_multiset() == batches_in(rows@.take(i as int)).to_multiset(),
            forall|b: BatchView, j: int|
                #![trigger batch_bytes(b), rows@[j]]
                0 <= j < i && rows@[j].1@ == batch_bytes(b) ==> batch_views(out@).contains(b),
        decreases rows.len() - i,
    {
        let ghost before = batch_views(out@);
        proof {
            assert(rows@.take(i + 1).drop_last() =~= rows@.take(i as int));
            assert(rows@.take(i + 1).last() == rows@[i as int]);
        }
        match read_batch(&rows[i].1) {
            Some(b) => {
                let ghost bv = b@;
                let mut k: usize = 0;
                while k < out.len() && out[k].seq <= b.seq
                    invariant
                        k <= out.len(),
                        bv == b@,
                        before == batch_views(out@),
                        forall|j: int| 0 <= j < k ==> (#[trigger] before[j]).seq <= bv.seq,
                    decreases out.len() - k,
                {
                    assert(before[k as int] == out@[k as int]@);
                    k = k + 1;
                }
                proof {
                    if k < before.len() {
                        assert(before[k as int] == out@[k as int]@);
                    }
                }
                out.insert(k, b);
                proof {
                    let after = batch_views(out@);
                    assert(after =~= before.insert(k as int, bv));
                    vstd::seq_lib::to_multiset_insert(before, k as int, bv);
                    vstd::seq_lib::to_multiset_build(batches_in(rows@.take(i as int)), bv);
                    lemma_insert_in_sequence(before, k as int, bv);
                    assert forall|c: BatchView, j: int|
                        #![trigger batch_bytes(c), rows@[j]]
                        0 <= j < i + 1 && rows@[j].1@ == batch_bytes(c) implies after.contains(
                        c,
                    ) by {
                        if j == i {
                            assert(c == bv);
                            assert(after[k as int] == bv);
                        } else {
                            assert(before.contains(c));
                            let x = choose|x: int| 0 <= x < before.len() && before[x] == c;
                            if x < k {
                                assert(after[x] == c);
                            } else {
                                assert(after[x + 1] == c);
                            }
                        }
                    }
                }
            },
            None => {},
        }
        i = i + 1;
    }
    proof {
        assert(rows@.take(rows@.len() as int) =~= rows@);
        assert forall|b: BatchView|
            #![trigger saga::payload_key(merge_id, b.seq), batch_bytes(b)]
            kv::value_at(kv@, saga::payload_key(merge_id, b.seq)) == Some(batch_bytes(b)) implies batch_views(
            out@,
        ).contains(b) by {
            let key = saga::payload_key(merge_id, b.seq);
            keys::lemma_tagged_rest_injective(
                "saga_payload:"@,
                merge_id.0,
                hex::decimal(b.seq as nat),
                merge_id.0,
                Seq::<char>::empty(),
            );
            assert(text::begins_with(key, saga::payload_prefix(merge_id)));
            assert(kv@.contains_key(key));
            let j = choose|j: int| 0 <= j < rows.len() && (#[trigger] rows@[j]).0@ == key;
            assert(rows@[j].1@ == batch_bytes(b));
        }
    }
    out
}

/// A batch put behind those that do not come after it keeps the order.
proof fn lemma_insert_in_sequence(s: Seq<BatchView>, k: int, b: BatchView)
    requires
        in_sequence(s),
        0 <= k <= s.len(),
        forall|j: int| 0 <= j < k ==> (#[trigger] s[j]).seq <= b.seq,
        k < s.len() ==> b.seq <= s[k].seq,
    ensures
        in_sequence(s.insert(k, b)),
{
    let t = s.insert(k, b);
    assert forall|i: int, j: int| 0 <= i < j < t.len() implies (#[trigger] t[i]).seq <= (
    #[trigger] t[j]).seq by {
        let i0 = if i < k { i } else { i - 1 };
        let j0 = if j < k { j } else { j - 1 };
        if i == k {
            assert(t[j] == s[j0]);
            if j0 > k {
                assert(s[k].seq <= s[j0].seq);
            }
        } else if j == k {
            assert(t[i] == s[i0]);
        } else {
            assert(t[i] == s[i0] && t[j] == s[j0]);
        }
    }
}

/// Applying edges leaves the revisions as they are.
pub proof fn lemma_applied_keeps_revisions(g: GraphView, batches: Seq<BatchView>)
    ensures
        all_applied(g, batches).revisions == g.revisions,
    decreases batches.len(),
{
    if batches.len() > 0 {
        lemma_applied_keeps_revisions(g, batches.drop_last());
    }
}

/// Each batch's prior edges are those its revision had just before it.
pub open spec fn priors_true(g: GraphView, batches: Seq<BatchView>) -> bool {
    forall|i: int|
        0 <= i < batches.len() ==> (#[trigger] batches[i]).prior == all_applied(
            g,
            batches.take(i),
        ).out(batches[i].target) && g.rev(batches[i].target) is Some
}

/// Undoing batches in reverse gives every revision back the edges it had before they were applied.
pub proof fn law_compensation_undoes(
    g: GraphView,
    batches: Seq<BatchView>,
    rid: NodeRevisionId,
)
    requires
        priors_true(g, batches),
    ensures
        compensated(all_applied(g, batches), batches).out(rid) == g.out(rid),
        compensated(all_applied(g, batches), batches).revisions == g.revisions,
    decreases batches.len(),
{
    if batches.len() > 0 {
        let front = batches.drop_last();
        let last = batches.last();
        let mid = all_applied(g, front);
        assert(batches.take(batches.len() - 1) =~= front);
        assert(batches[batches.len() - 1] == last);
        assert(priors_true(g, front)) by {
            assert forall|i: int| 0 <= i < front.len() implies (#[trigger] front[i]).prior
                == all_applied(g, front.take(i)).out(front[i].target) && g.rev(
                front[i].target,
            ) is Some by {
                assert(batches[i] == front[i]);
                assert(front.take(i) =~= batches.take(i));
            }
        }
        law_compensation_undoes(g, front, rid);
        lemma_applied_keeps_revisions(g, front);
        let applied = batch_applied(mid, last);
        assert(applied.rev(last.target) == g.rev(last.target));
        let undone = batch_undone(applied, last);
        assert(undone.revisions == mid.revisions);
        assert forall|r: NodeRevisionId| undone.out(r) == mid.out(r) by {}
        lemma_compensated_by_out(undone, mid, front, rid);
    }
}

/// What compensation gives depends on what edges revisions have, not on how they are kept.
proof fn lemma_compensated_by_out(
    a: GraphView,
    b: GraphView,
    batches: Seq<BatchView>,
    rid: NodeRevisionId,
)
    requires
        a.revisions == b.revisions,
        forall|r: NodeRevisionId| a.out(r) == #[trigger] b.out(r),
    ensures
        compensated(a, batches).out(rid) == compensated(b, batches).out(rid),
        compensated(a, batches).revisions == compensated(b, batches).revisions,
    decreases batches.len(),
{
    if batches.len() > 0 {
        let last = batches.last();
        let a1 = batch_undone(a, last);
        let b1 = batch_undone(b, last);
        assert(a.rev(last.target) == b.rev(last.target));
        assert forall|r: NodeRevisionId| a1.out(r) == #[trigger] b1.out(r) by {
            assert(a.out(r) == b.out(r));
        }
        lemma_compensated_by_out(a1, b1, batches.drop_last(), rid);
    }
}

} // verus!
