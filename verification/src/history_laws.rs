//! What holds of the history of symbols: of layers of bindings, of lineages, and of what is taken away.

use crate::graph;
use crate::graph::{GraphView, RevisionStatus, RevisionView};
use crate::hex;
use crate::ids::{BranchId, IdentityId, NodeRevisionId};
use crate::keys;
use crate::overrides;
use crate::query_laws;
use crate::revision_cow;
use crate::revision_cow::Layer;
use crate::revision_index;
use crate::revision_lineage;
use crate::revision_lineage::{LineageLink, LineageOptions, StepView};
use crate::seqs;
use crate::text;
use crate::text_laws;
use crate::time_travel;
use crate::tombstone_gc;
use crate::tombstone_gc::GcState;
use crate::tree_laws;
use crate::wal::RecordView;
use vstd::prelude::*;

verus! {

/// What a layer says of an identity: what its store binds goes before what it holds in memory.
pub open spec fn layer_says(m: Map<Seq<char>, Seq<u8>>, l: Layer, i: IdentityId) -> Option<NodeRevisionId> {
    if keys::bound(m, l.branch, i) is Some {
        keys::bound(m, l.branch, i)
    } else if l.local.contains_key(i) {
        Some(l.local[i])
    } else {
        None
    }
}

/// An identity is bound to what the first layer says that says anything of it, and to nothing if none
/// does.
pub proof fn law_first_layer_decides(layers: Seq<Layer>, m: Map<Seq<char>, Seq<u8>>, i: IdentityId, k: int)
    ensures
        0 <= k < layers.len() && layer_says(m, layers[k], i) is Some && (forall|j: int|
            0 <= j < k ==> layer_says(m, #[trigger] layers[j], i) is None) ==> revision_cow::cow_lookup(
            layers,
            m,
            i,
        ) == layer_says(m, layers[k], i),
        (forall|j: int| 0 <= j < layers.len() ==> layer_says(m, #[trigger] layers[j], i) is None)
            ==> revision_cow::cow_lookup(layers, m, i) is None,
    decreases layers.len(),
{
    if layers.len() > 0 {
        let rest = layers.skip(1);
        law_first_layer_decides(rest, m, i, k - 1);
        assert forall|j: int| 0 <= j < rest.len() implies #[trigger] rest[j] == layers[j + 1] by {}
        if k > 0 && (forall|j: int| 0 <= j < k ==> layer_says(m, #[trigger] layers[j], i) is None) {
            assert(layer_says(m, layers[0], i) is None);
        }
        if forall|j: int| 0 <= j < layers.len() ==> layer_says(m, #[trigger] layers[j], i) is None {
            assert(layer_says(m, layers[0], i) is None);
        }
    }
}

/// Keeping in memory what was looked up changes nothing of what any identity is bound to.
pub proof fn law_looking_up_changes_nothing(
    layers: Seq<Layer>,
    m: Map<Seq<char>, Seq<u8>>,
    i: IdentityId,
    other: IdentityId,
)
    ensures
        revision_cow::cow_lookup(revision_cow::cow_cached(layers, m, i), m, other) == revision_cow::cow_lookup(
            layers,
            m,
            other,
        ),
        revision_cow::cow_cached(layers, m, i).len() == layers.len(),
    decreases layers.len(),
{
    if layers.len() > 0 {
        let rest = layers.skip(1);
        let after = revision_cow::cow_cached(layers, m, i);
        law_looking_up_changes_nothing(rest, m, i, other);
        if let Some(r) = keys::bound(m, layers[0].branch, i) {
            assert(after.skip(1) =~= rest);
        } else if !layers[0].local.contains_key(i) {
            assert(after.skip(1) =~= revision_cow::cow_cached(rest, m, i));
            assert(after[0] == layers[0]);
        }
    }
}

/// Folding layers keeps of each identity what the first layer holds that holds it, and no other identity.
pub proof fn law_folded_layers(layers: Seq<Layer>, i: IdentityId, k: int)
    ensures
        revision_cow::folded(layers).contains_key(i) <==> exists|j: int|
            0 <= j < layers.len() && (#[trigger] layers[j]).local.contains_key(i),
        0 <= k < layers.len() && layers[k].local.contains_key(i) && (forall|j: int|
            0 <= j < k ==> !(#[trigger] layers[j]).local.contains_key(i)) ==> revision_cow::folded(layers)[i]
            == layers[k].local[i],
    decreases layers.len(),
{
    if layers.len() > 0 {
        let rest = layers.skip(1);
        law_folded_layers(rest, i, k - 1);
        assert forall|j: int| 0 <= j < rest.len() implies #[trigger] rest[j] == layers[j + 1] by {}
        if exists|j: int| 0 <= j < layers.len() && (#[trigger] layers[j]).local.contains_key(i) {
            let j = choose|j: int| 0 <= j < layers.len() && (#[trigger] layers[j]).local.contains_key(i);
            if j > 0 {
                assert(rest[j - 1].local.contains_key(i));
            }
        }
        if exists|j: int| 0 <= j < rest.len() && (#[trigger] rest[j]).local.contains_key(i) {
            let j = choose|j: int| 0 <= j < rest.len() && (#[trigger] rest[j]).local.contains_key(i);
            assert(layers[j + 1].local.contains_key(i));
        }
        if layers[0].local.contains_key(i) {
            if k > 0 && (forall|j: int| 0 <= j < k ==> !(#[trigger] layers[j]).local.contains_key(i)) {
                assert(!layers[0].local.contains_key(i));
            }
        }
    }
}

proof fn lemma_ancestry_goes_on(m: Map<Seq<char>, Seq<u8>>, chain: Seq<BranchId>, cur: BranchId)
    ensures
        ({
            let r = revision_index::ancestry_from(m, chain, cur);
            &&& !chain.contains(cur) && chain.len() <= 10 ==> r.len() > chain.len()
            &&& r.len() > chain.len() ==> r.len() > 10 || (match revision_index::parent_of(m, r.last()) {
                Some(p) => r.contains(p),
                None => true,
            })
        }),
    decreases 11 - chain.len(),
{
    if !chain.contains(cur) && chain.len() <= 10 {
        let more = chain.push(cur);
        assert(more.last() == cur);
        if let Some(p) = revision_index::parent_of(m, cur) {
            lemma_ancestry_goes_on(m, more, p);
        }
    }
}

/// An ancestry goes on until a branch has no parent, or its parent was met, or there are eleven.
pub proof fn law_ancestry_goes_on(m: Map<Seq<char>, Seq<u8>>, branch: BranchId)
    ensures
        ({
            let r = revision_index::ancestry(m, branch);
            &&& r.len() > 0
            &&& r.len() == 11 || (match revision_index::parent_of(m, r.last()) {
                Some(p) => r.contains(p),
                None => true,
            })
        }),
{
    lemma_ancestry_goes_on(m, Seq::empty(), branch);
    revision_index::law_ancestry(m, branch);
}

/// Where the step behind a revision leads: to its parent, if the graph has it; else, where renames are
/// followed, to the tombstone of what it was renamed from.
pub open spec fn steps_back(
    g: GraphView,
    chain: Seq<BranchId>,
    opts: LineageOptions,
    rev: RevisionView,
    to: NodeRevisionId,
    link: LineageLink,
) -> bool {
    let has_parent = rev.parent_revision_id is Some && g.rev(rev.parent_revision_id->0) is Some;
    ||| has_parent && to == rev.parent_revision_id->0 && link == LineageLink::ParentRevision
    ||| !has_parent && opts.follow_renames && rev.rename_source_id is Some && (match g.tombstone_in_chain(
        chain,
        rev.rename_source_id->0,
    ) {
        Some(t) => to == t.revision_id && link == LineageLink::RenameSource,
        None => false,
    })
}

/// A step of a lineage tells its revision, which stands on the chain.
pub open spec fn step_tells(g: GraphView, chain: Seq<BranchId>, s: StepView) -> bool {
    match g.rev(s.revision) {
        Some(rev) => s.identity == rev.identity_id && s.name == rev.qualified_name && s.body == rev.body_hash
            && s.status == rev.status && chain.contains(rev.branch_id),
        None => false,
    }
}

/// A lineage so far: each step tells its revision, and leads to the next.
spec fn well_led(g: GraphView, chain: Seq<BranchId>, opts: LineageOptions, steps: Seq<StepView>) -> bool {
    &&& forall|i: int| 0 <= i < steps.len() ==> step_tells(g, chain, #[trigger] steps[i])
    &&& forall|i: int, j: int|
        0 <= i && j == i + 1 && j < steps.len() ==> (opts.include_tombstones || (#[trigger] steps[j]).status
            != RevisionStatus::Tombstone) && steps_back(
            g,
            chain,
            opts,
            g.rev((#[trigger] steps[i]).revision)->0,
            steps[j].revision,
            steps[j].link,
        )
}

/// What a lineage ends at: nothing is behind, or what is behind is not on the chain, is a tombstone that
/// was not asked for, or was met.
pub open spec fn ends_at(
    g: GraphView,
    chain: Seq<BranchId>,
    opts: LineageOptions,
    steps: Seq<StepView>,
    to: NodeRevisionId,
) -> bool {
    ||| g.rev(to) is None
    ||| !chain.contains(g.rev(to)->0.branch_id)
    ||| !opts.include_tombstones && g.rev(to)->0.status == RevisionStatus::Tombstone
    ||| exists|i: int| 0 <= i < steps.len() && (#[trigger] steps[i]).revision == to
}

/// A lineage cannot be led on.
pub open spec fn is_at_its_end(
    g: GraphView,
    chain: Seq<BranchId>,
    opts: LineageOptions,
    steps: Seq<StepView>,
) -> bool {
    forall|to: NodeRevisionId, l: LineageLink| #[trigger]
        steps_back(g, chain, opts, g.rev(steps.last().revision)->0, to, l) ==> ends_at(
            g,
            chain,
            opts,
            steps,
            to,
        )
}

proof fn lemma_led_on(
    g: GraphView,
    chain: Seq<BranchId>,
    opts: LineageOptions,
    steps: Seq<StepView>,
    cur: NodeRevisionId,
    link: LineageLink,
)
    requires
        well_led(g, chain, opts, steps),
        steps.len() > 0 ==> steps_back(g, chain, opts, g.rev(steps.last().revision)->0, cur, link),
        g.rev(cur) is Some,
        chain.contains(g.rev(cur)->0.branch_id),
        steps.len() == 0 || opts.include_tombstones || g.rev(cur)->0.status != RevisionStatus::Tombstone,
    ensures
        well_led(g, chain, opts, steps.push(revision_lineage::step_for(g.rev(cur)->0, link))),
        revision_lineage::step_for(g.rev(cur)->0, link).revision == cur,
{
    lemma_rev_is(g, cur);
    let more = steps.push(revision_lineage::step_for(g.rev(cur)->0, link));
    assert forall|i: int| 0 <= i < more.len() implies step_tells(g, chain, #[trigger] more[i]) by {
        if i < steps.len() {
            assert(more[i] == steps[i]);
        }
    }
    assert forall|i: int, j: int| 0 <= i && j == i + 1 && j < more.len() implies (opts.include_tombstones || (
    #[trigger] more[j]).status != RevisionStatus::Tombstone) && steps_back(
        g,
        chain,
        opts,
        g.rev((#[trigger] more[i]).revision)->0,
        more[j].revision,
        more[j].link,
    ) by {
        if j < steps.len() {
            assert(more[j] == steps[j]);
            assert(more[i] == steps[i]);
        } else {
            assert(more[i] == steps.last());
        }
    }
}

proof fn lemma_one_way_back(
    g: GraphView,
    chain: Seq<BranchId>,
    opts: LineageOptions,
    steps: Seq<StepView>,
    cur: NodeRevisionId,
    link: LineageLink,
)
    requires
        steps_back(g, chain, opts, g.rev(steps.last().revision)->0, cur, link),
        ends_at(g, chain, opts, steps, cur),
    ensures
        is_at_its_end(g, chain, opts, steps),
{
}

proof fn lemma_next_back(
    g: GraphView,
    chain: Seq<BranchId>,
    opts: LineageOptions,
    rev: RevisionView,
)
    ensures
        revision_lineage::next_back(g, chain, rev, opts) matches Some((n, l)) ==> steps_back(
            g,
            chain,
            opts,
            rev,
            n,
            l,
        ),
        revision_lineage::next_back(g, chain, rev, opts) is None ==> forall|n: NodeRevisionId, l: LineageLink|
            !(#[trigger] steps_back(g, chain, opts, rev, n, l)),
{
}

proof fn lemma_lineage_led(
    g: GraphView,
    chain: Seq<BranchId>,
    opts: LineageOptions,
    steps: Seq<StepView>,
    cur: NodeRevisionId,
    link: LineageLink,
    left: nat,
)
    requires
        well_led(g, chain, opts, steps),
        steps.len() > 0 ==> steps_back(g, chain, opts, g.rev(steps.last().revision)->0, cur, link),
    ensures
        ({
            let r = revision_lineage::lineage_from(g, chain, opts, steps, cur, link, left);
            &&& well_led(g, chain, opts, r)
            &&& steps.len() <= r.len() <= steps.len() + left
            &&& 0 < r.len() < steps.len() + left ==> is_at_its_end(g, chain, opts, r)
        }),
    decreases left,
{
    if left > 0 {
        let goes_on = g.rev(cur) is Some && chain.contains(g.rev(cur)->0.branch_id) && (steps.len() == 0
            || opts.include_tombstones || g.rev(cur)->0.status != RevisionStatus::Tombstone)
            && !revision_lineage::visited(steps, cur);
        if goes_on {
            let rev = g.rev(cur)->0;
            let more = steps.push(revision_lineage::step_for(rev, link));
            lemma_led_on(g, chain, opts, steps, cur, link);
            lemma_next_back(g, chain, opts, rev);
            assert(more.last().revision == cur);
            if let Some((n, l)) = revision_lineage::next_back(g, chain, rev, opts) {
                lemma_lineage_led(g, chain, opts, more, n, l, (left - 1) as nat);
            }
        } else if steps.len() > 0 {
            assert(ends_at(g, chain, opts, steps, cur));
            lemma_one_way_back(g, chain, opts, steps, cur, link);
        }
    }
}

proof fn lemma_rev_is(g: GraphView, rid: NodeRevisionId)
    ensures
        g.rev(rid) matches Some(r) ==> r.revision_id == rid,
{
    seqs::lemma_first_is(g.revisions, |x: RevisionView| x.revision_id == rid);
}

/// A lineage is led from each revision to the one behind it, through the parent or the rename; it tells
/// of each what the graph has; it leaves out tombstones where they were not asked for; and it ends only
/// where nothing more can follow, or where it is as long as was asked for.
pub proof fn law_lineage_is_followed(
    g: GraphView,
    chain: Seq<BranchId>,
    head: NodeRevisionId,
    opts: LineageOptions,
    i: int,
)
    ensures
        ({
            let r = revision_lineage::lineage(g, chain, head, opts);
            &&& 0 <= i < r.len() ==> step_tells(g, chain, r[i])
            &&& 0 < i < r.len() ==> opts.include_tombstones || r[i].status != RevisionStatus::Tombstone
            &&& 0 < i < r.len() ==> steps_back(
                g,
                chain,
                opts,
                g.rev(r[i - 1].revision)->0,
                r[i].revision,
                r[i].link,
            )
            &&& 0 < r.len() < opts.max_depth ==> is_at_its_end(g, chain, opts, r)
        }),
{
    lemma_lineage_led(
        g,
        chain,
        opts,
        Seq::empty(),
        head,
        LineageLink::Start,
        opts.max_depth as nat,
    );
}

/// Two lineages meet in the first revision of the second that the first has; they do not meet if it has
/// none of them.
pub proof fn law_lineages_meet_first(ours: Seq<StepView>, theirs: Seq<StepView>, k: int)
    ensures
        0 <= k < theirs.len() && revision_lineage::visited(ours, theirs[k].revision) && (forall|j: int|
            0 <= j < k ==> !revision_lineage::visited(ours, (#[trigger] theirs[j]).revision))
            ==> revision_lineage::first_shared(ours, theirs) == Some(theirs[k].revision),
        (forall|j: int|
            0 <= j < theirs.len() ==> !revision_lineage::visited(ours, (#[trigger] theirs[j]).revision))
            ==> revision_lineage::first_shared(ours, theirs) is None,
    decreases theirs.len(),
{
    if theirs.len() > 0 {
        let rest = theirs.skip(1);
        law_lineages_meet_first(ours, rest, k - 1);
        assert forall|j: int| 0 <= j < rest.len() implies #[trigger] rest[j] == theirs[j + 1] by {}
        if revision_lineage::visited(ours, theirs[0].revision) && k > 0 {
            if forall|j: int|
                0 <= j < k ==> !revision_lineage::visited(ours, (#[trigger] theirs[j]).revision) {
                assert(!revision_lineage::visited(ours, theirs[0].revision));
            }
        }
    }
}

/// A revision that is retired is a tombstone from then on, and since then; a tombstone keeps the time it
/// has; no other revision changes.
pub proof fn law_retired_revision(g: GraphView, rid: NodeRevisionId, now_ms: u64, other: NodeRevisionId)
    ensures
        g.rev(rid) matches Some(r) ==> (match revision_lineage::retired(g, rid, now_ms).rev(rid) {
            Some(t) => t.status == RevisionStatus::Tombstone && (r.status != RevisionStatus::Tombstone
                ==> t.tombstoned_at_ms == Some(now_ms)) && (r.status == RevisionStatus::Tombstone ==> t == r)
                && t.identity_id == r.identity_id && t.branch_id == r.branch_id && t.body_hash == r.body_hash
                && t.qualified_name == r.qualified_name,
            None => false,
        }),
        other != rid ==> revision_lineage::retired(g, rid, now_ms).rev(other) == g.rev(other),
        revision_lineage::retired(g, rid, now_ms).edges == g.edges,
{
    lemma_rev_is(g, rid);
    if let Some(r) = g.rev(rid) {
        if r.status != RevisionStatus::Tombstone {
            graph::law_put_then_get(
                g,
                RevisionView {
                    status: RevisionStatus::Tombstone,
                    tombstoned_at_ms: Some(now_ms),
                    ..r
                },
                other,
            );
        }
    }
}

/// A live revision of a branch has an edge to an identity.
pub open spec fn refers(g: GraphView, branch: BranchId, identity: IdentityId, i: int, k: int) -> bool {
    &&& 0 <= i < g.revisions.len()
    &&& g.revisions[i].branch_id == branch
    &&& g.revisions[i].status == RevisionStatus::Active || g.revisions[i].status == RevisionStatus::Speculative
    &&& 0 <= k < g.out(g.revisions[i].revision_id).len()
    &&& g.out(g.revisions[i].revision_id)[k].target_identity_id == identity
}

proof fn lemma_referenced(g: GraphView, branch: BranchId, identity: IdentityId)
    ensures
        tombstone_gc::referenced(g, branch, identity) <==> exists|i: int, k: int| #[trigger]
            refers(g, branch, identity, i, k),
{
    if tombstone_gc::referenced(g, branch, identity) {
        let i = choose|i: int|
            0 <= i < g.revisions.len() && tombstone_gc::referenced_by(
                g,
                #[trigger] g.revisions[i],
                branch,
                identity,
            );
        let rid = g.revisions[i].revision_id;
        let k = choose|k: int|
            0 <= k < g.out(rid).len() && (#[trigger] g.out(rid)[k]).target_identity_id == identity;
        assert(refers(g, branch, identity, i, k));
    }
    if exists|i: int, k: int| #[trigger] refers(g, branch, identity, i, k) {
        let (i, k) = choose|i: int, k: int| #[trigger] refers(g, branch, identity, i, k);
        let rid = g.revisions[i].revision_id;
        assert(g.out(rid)[k].target_identity_id == identity);
        assert(g.targets(rid, identity));
        assert(tombstone_gc::referenced_by(g, g.revisions[i], branch, identity));
    }
}

/// A tombstone that may be removed: its time is up, or no time is known; nothing is bound to it; no
/// snapshot lists it; nothing in flight changes it; and no live revision of its branch has an edge to its
/// symbol.
pub open spec fn may_be_removed(
    g: GraphView,
    m: Map<Seq<char>, Seq<u8>>,
    log: Seq<RecordView>,
    retention_ms: u64,
    now_ms: u64,
    r: RevisionView,
) -> bool {
    &&& r.status == RevisionStatus::Tombstone
    &&& match r.tombstoned_at_ms {
        Some(t) => now_ms >= t + retention_ms || retention_ms == 0,
        None => true,
    }
    &&& forall|k: Seq<char>| #[trigger]
        m.contains_key(k) && text::begins_with(k, "ri:"@) && !text::begins_with(k, "ri:provisional:"@) ==> m[k]
            != r.revision_id.0@
    &&& forall|k: Seq<char>| #[trigger]
        m.contains_key(k) && text::begins_with(k, "ris:"@) ==> !tombstone_gc::snapshot_lists(
            m[k],
            r.revision_id,
        )
    &&& forall|i: int|
        0 <= i < log.len() && (#[trigger] log[i]).phase.in_flight() ==> !log[i].affected.contains(r.revision_id)
    &&& forall|i: int, k: int| !(#[trigger] refers(g, r.branch_id, r.identity_id, i, k))
}

proof fn lemma_eligible(
    g: GraphView,
    m: Map<Seq<char>, Seq<u8>>,
    log: Seq<RecordView>,
    retention_ms: u64,
    now_ms: u64,
    r: RevisionView,
)
    ensures
        tombstone_gc::eligible(g, m, log, retention_ms, now_ms, r) <==> may_be_removed(
            g,
            m,
            log,
            retention_ms,
            now_ms,
            r,
        ),
{
    lemma_referenced(g, r.branch_id, r.identity_id);
    let rid = r.revision_id;
    if tombstone_gc::eligible(g, m, log, retention_ms, now_ms, r) {
        assert forall|k: Seq<char>| #[trigger]
            m.contains_key(k) && text::begins_with(k, "ri:"@) && !text::begins_with(k, "ri:provisional:"@)
            implies m[k] != rid.0@ by {
            assert(!tombstone_gc::binds_to(m, k, rid));
        }
    }
    if may_be_removed(g, m, log, retention_ms, now_ms, r) {
        assert forall|k: Seq<char>| !(#[trigger] tombstone_gc::binds_to(m, k, rid)) by {
            if m.contains_key(k) {
            }
        }
    }
}

/// What is chosen for removal: of the revisions, in order, those tombstones that may be removed.
pub proof fn law_chosen_for_removal(
    g: GraphView,
    m: Map<Seq<char>, Seq<u8>>,
    log: Seq<RecordView>,
    retention_ms: u64,
    now_ms: u64,
    n: nat,
    rid: NodeRevisionId,
)
    requires
        n <= g.revisions.len(),
    ensures
        tombstone_gc::eligible_among(g, m, log, retention_ms, now_ms, n).contains(rid) <==> exists|i: int|
            0 <= i < n && (#[trigger] g.revisions[i]).revision_id == rid && may_be_removed(
                g,
                m,
                log,
                retention_ms,
                now_ms,
                g.revisions[i],
            ),
    decreases n,
{
    if n > 0 {
        let p = (n - 1) as nat;
        let l = g.revisions[n - 1];
        law_chosen_for_removal(g, m, log, retention_ms, now_ms, p, rid);
        lemma_eligible(g, m, log, retention_ms, now_ms, l);
        let a = tombstone_gc::eligible_among(g, m, log, retention_ms, now_ms, p);
        assert(a.push(l.revision_id) =~= a + seq![l.revision_id]);
        tree_laws::lemma_both(a, seq![l.revision_id], rid);
        tree_laws::lemma_one(l.revision_id, rid);
    }
}

/// When a removal is refused, and why: the revision is not there; it is no tombstone; a live revision of
/// its branch has an edge to its symbol.
pub proof fn law_refused_removal(g: GraphView, rid: NodeRevisionId, rev: RevisionView)
    ensures
        g.rev(rid) is None ==> tombstone_gc::delete_refused(g, rid) == Some("missing revision"@),
        g.rev(rid) == Some(rev) && rev.status != RevisionStatus::Tombstone ==> tombstone_gc::delete_refused(
            g,
            rid,
        ) == Some("not tombstone"@),
        g.rev(rid) == Some(rev) && rev.status == RevisionStatus::Tombstone && (exists|i: int, k: int| #[trigger]
            refers(g, rev.branch_id, rev.identity_id, i, k)) ==> tombstone_gc::delete_refused(g, rid) == Some(
            "inbound references"@,
        ),
        g.rev(rid) == Some(rev) && rev.status == RevisionStatus::Tombstone && (forall|i: int, k: int| !(
        #[trigger] refers(g, rev.branch_id, rev.identity_id, i, k))) ==> tombstone_gc::delete_refused(g, rid)
            is None,
{
    lemma_referenced(g, rev.branch_id, rev.identity_id);
}

/// A job of the queue: a removal that is refused is put back at the end, and changes nothing else; one
/// that is not takes the revision and its edges out of the graph, and its chunk is handed on.
pub proof fn law_removal_step(st: GcState, other: NodeRevisionId)
    requires
        st.jobs.len() > 0,
    ensures
        ({
            let rid = st.jobs[0].revision_id;
            let after = tombstone_gc::gc_step(st);
            let refused = tombstone_gc::delete_refused(st.g, rid) is Some;
            &&& refused ==> after.g == st.g && after.m == st.m && after.chunks == st.chunks && after.jobs.len()
                == st.jobs.len() && after.jobs.last() == st.jobs[0]
            &&& !refused ==> after.g.rev(rid) is None && after.g.out(rid).len() == 0 && after.jobs
                == st.jobs.skip(1) && after.chunks.len() == st.chunks.len() + 1
            &&& !refused && other != rid ==> after.g.rev(other) == st.g.rev(other) && after.g.out(other)
                == st.g.out(other)
            &&& !refused ==> forall|k: Seq<char>| #[trigger]
                after.m.contains_key(k) <==> st.m.contains_key(k) && !(text::begins_with(k, "ri:"@)
                    && !text::begins_with(k, "ri:provisional:"@) && st.m[k] == rid.0@)
                    && !overrides::overrides_source(k, rid)
        }),
{
    let rid = st.jobs[0].revision_id;
    let after = tombstone_gc::gc_step(st);
    if tombstone_gc::delete_refused(st.g, rid) is None {
        lemma_without(st.g, rid, other);
    }
}

proof fn lemma_without(g: GraphView, rid: NodeRevisionId, other: NodeRevisionId)
    ensures
        g.without(rid).rev(rid) is None,
        g.without(rid).out(rid).len() == 0,
        other != rid ==> g.without(rid).rev(other) == g.rev(other),
        other != rid ==> g.without(rid).out(other) == g.out(other),
{
    let q = |r: RevisionView| r.revision_id != rid;
    lemma_first_after_filter(g.revisions, q, |x: RevisionView| x.revision_id == other);
    lemma_first_after_filter(g.revisions, q, |x: RevisionView| x.revision_id == rid);
    seqs::lemma_first_is(g.revisions.filter(q), |x: RevisionView| x.revision_id == rid);
    if let Some(x) = g.without(rid).rev(rid) {
        assert(g.revisions.filter(q).contains(x));
        query_laws::lemma_filter_has(g.revisions, q, x);
    }
}

proof fn lemma_first_after_filter(
    s: Seq<RevisionView>,
    q: spec_fn(RevisionView) -> bool,
    p: spec_fn(RevisionView) -> bool,
)
    ensures
        (forall|x: RevisionView| #[trigger] p(x) ==> q(x)) ==> seqs::first_such(s.filter(q), p) == seqs::first_such(s, p),
    decreases s.len(),
{
    if s.len() > 0 {
        let rest = s.drop_first();
        lemma_first_after_filter(rest, q, p);
        lemma_filter_front(s, q);
        if q(s[0]) {
            assert((seq![s[0]] + rest.filter(q)).drop_first() =~= rest.filter(q));
        }
    } else {
        reveal(Seq::filter);
        assert(s.filter(q) =~= s);
    }
}

proof fn lemma_filter_front(s: Seq<RevisionView>, q: spec_fn(RevisionView) -> bool)
    requires
        s.len() > 0,
    ensures
        s.filter(q) == if q(s[0]) {
            seq![s[0]] + s.drop_first().filter(q)
        } else {
            s.drop_first().filter(q)
        },
    decreases s.len(),
{
    reveal(Seq::filter);
    if s.len() > 1 {
        let front = s.drop_last();
        lemma_filter_front(front, q);
        assert(front.drop_first() =~= s.drop_first().drop_last());
        assert(s.drop_first().last() == s.last());
        assert(front[0] == s[0]);
        if q(s.last()) {
            assert(front.filter(q).push(s.last()) =~= if q(s[0]) {
                seq![s[0]] + front.drop_first().filter(q).push(s.last())
            } else {
                front.drop_first().filter(q).push(s.last())
            });
        }
    } else {
        assert(s.drop_last() =~= Seq::empty());
        assert(s.drop_first() =~= Seq::empty());
        assert(s.drop_first().filter(q) =~= Seq::empty());
        assert(s.drop_last().filter(q) =~= Seq::empty());
    }
}

/// The next number of a branch's snapshots: one more than the last, and one at first.
pub proof fn law_next_epoch(m: Map<Seq<char>, Seq<u8>>, branch: BranchId, n: u64)
    ensures
        time_travel::number_at(m, time_travel::epoch_key(branch)) is None ==> time_travel::epoch_after(m, branch)
            == 1,
        time_travel::number_at(m, time_travel::epoch_key(branch)) == Some(n) && n < u64::MAX
            ==> time_travel::epoch_after(m, branch) == n + 1,
{
}

/// What a text says of a point of the log: nothing is refused; so is a number that is too large; a text
/// of hexadecimal digits, with or without `0x` in front, is that number; anything that is no number is
/// refused.
pub proof fn law_point_of_the_log(s: Seq<char>, d: Seq<char>)
    requires
        hex::all_hex_digits(d),
        d.len() > 0,
    ensures
        text::trimmed(s).len() == 0 ==> time_travel::log_anchor(s) == Err::<u64, Seq<char>>(
            "empty commit_hash"@,
        ),
        text::trimmed(s) == "0x"@ + d && time_travel::hex_number(d) <= u64::MAX ==> time_travel::log_anchor(s)
            == Ok::<u64, Seq<char>>(time_travel::hex_number(d) as u64),
        text::trimmed(s) == "0X"@ + d && time_travel::hex_number(d) <= u64::MAX ==> time_travel::log_anchor(s)
            == Ok::<u64, Seq<char>>(time_travel::hex_number(d) as u64),
        text::trimmed(s) == "0x"@ + d && time_travel::hex_number(d) > u64::MAX ==> time_travel::log_anchor(s)
            == Err::<u64, Seq<char>>("commit_hash hex overflow"@),
{
    reveal_strlit("0x");
    reveal_strlit("0X");
    assert(("0x"@ + d).skip(2) =~= d);
    assert(("0X"@ + d).skip(2) =~= d);
    text_laws::law_parts_of_texts(Seq::empty(), "0x"@, d, d);
    text_laws::law_parts_of_texts(Seq::empty(), "0X"@, d, d);
}

} // verus!
