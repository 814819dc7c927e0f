//! Where a revision comes from: its parents and what it was renamed from.

use crate::clock::now_epoch_ms;
use crate::graph::{
    GraphView, InMemoryGraph, NodeRevision, RevisionStatus, RevisionView, contains_branch,
};
use crate::ids::{BranchId, IdentityId, NodeRevisionId};
use crate::kv::MemoryKv;
use crate::query_engine;
use crate::query_engine::resolve_identity_revision_with_absence;
use crate::seqs;
use crate::text::owned;
use vstd::prelude::*;

verus! {

/// How far back a lineage goes unless told otherwise.
pub const DEFAULT_MAX_DEPTH: usize = 32;

/// How a step of a lineage was come to.
#[derive(Debug, Clone, Copy, PartialEq, Eq, Structural)]
pub enum LineageLink {
    Start,
    ParentRevision,
    RenameSource,
}

/// One revision of a lineage.
#[derive(Debug, Clone)]
pub struct LineageStep {
    pub revision_id: NodeRevisionId,
    pub identity_id: IdentityId,
    pub qualified_name: String,
    pub body_hash: [u8; 32],
    pub status: RevisionStatus,
    pub link: LineageLink,
}

/// What a step holds.
pub struct StepView {
    pub revision: NodeRevisionId,
    pub identity: IdentityId,
    pub name: Seq<char>,
    pub body: [u8; 32],
    pub status: RevisionStatus,
    pub link: LineageLink,
}

impl View for LineageStep {
    type V = StepView;

    open spec fn view(&self) -> StepView {
        StepView {
            revision: self.revision_id,
            identity: self.identity_id,
            name: self.qualified_name@,
            body: self.body_hash,
            status: self.status,
            link: self.link,
        }
    }
}

/// What steps hold.
pub open spec fn step_views(v: Seq<LineageStep>) -> Seq<StepView> {
    v.map_values(|s: LineageStep| s@)
}

/// How a lineage is followed.
#[derive(Debug, Clone, Copy)]
pub struct LineageOptions {
    pub max_depth: usize,
    pub include_tombstones: bool,
    pub follow_renames: bool,
}

impl LineageOptions {
    /// As far as is usual, through tombstones and renames.
    pub fn standard() -> (r: Self)
        ensures
            r == (LineageOptions {
                max_depth: DEFAULT_MAX_DEPTH,
                include_tombstones: true,
                follow_renames: true,
            }),
    {
        LineageOptions {
            max_depth: DEFAULT_MAX_DEPTH,
            include_tombstones: true,
            follow_renames: true,
        }
    }
}

impl Default for LineageOptions {
    fn default() -> (r: Self)
        ensures
            r == (LineageOptions {
                max_depth: DEFAULT_MAX_DEPTH,
                include_tombstones: true,
                follow_renames: true,
            }),
    {
        LineageOptions::standard()
    }
}

/// The graph with a revision turned into a tombstone, if it is there and is none.
pub open spec fn retired(g: GraphView, rid: NodeRevisionId, now_ms: u64) -> GraphView {
    match g.rev(rid) {
        Some(rev) => if rev.status == RevisionStatus::Tombstone {
            g
        } else {
            g.put(
                RevisionView {
                    status: RevisionStatus::Tombstone,
                    tombstoned_at_ms: Some(now_ms),
                    ..rev
                },
            )
        },
        None => g,
    }
}

/// Turns a revision into a tombstone at a given time.
pub fn retire_revision_to_tombstone_at(
    graph: &mut InMemoryGraph,
    revision_id: NodeRevisionId,
    now_ms: u64,
)
    ensures
        final(graph)@ == retired(old(graph)@, revision_id, now_ms),
{
    let mut rev = match graph.get_revision(revision_id) {
        Some(r) => r.copied(),
        None => {
            return;
        },
    };
    match rev.status {
        RevisionStatus::Tombstone => {
            return;
        },
        _ => {},
    }
    rev.status = RevisionStatus::Tombstone;
    rev.tombstoned_at_ms = Some(now_ms);
    graph.put_revision(rev);
}

/// Turns a revision into a tombstone now.
pub fn retire_revision_to_tombstone(graph: &mut InMemoryGraph, revision_id: NodeRevisionId)
    ensures
        exists|now_ms: u64| final(graph)@ == #[trigger] retired(old(graph)@, revision_id, now_ms),
{
    let now_ms = now_epoch_ms();
    retire_revision_to_tombstone_at(graph, revision_id, now_ms);
}

/// A step for a revision.
pub open spec fn step_for(rev: RevisionView, link: LineageLink) -> StepView {
    StepView {
        revision: rev.revision_id,
        identity: rev.identity_id,
        name: rev.qualified_name,
        body: rev.body_hash,
        status: rev.status,
        link,
    }
}

/// Where a lineage goes on from a revision: to its parent, where that is there, or to the tombstone
/// of what it was renamed from.
pub open spec fn next_back(
    g: GraphView,
    chain: Seq<BranchId>,
    rev: RevisionView,
    opts: LineageOptions,
) -> Option<(NodeRevisionId, LineageLink)> {
    let by_rename = if opts.follow_renames {
        match rev.rename_source_id {
            Some(src) => match g.tombstone_in_chain(chain, src) {
                Some(t) => Some((t.revision_id, LineageLink::RenameSource)),
                None => None,
            },
            None => None,
        }
    } else {
        None
    };
    match rev.parent_revision_id {
        Some(p) => if g.rev(p) is Some {
            Some((p, LineageLink::ParentRevision))
        } else {
            by_rename
        },
        None => by_rename,
    }
}

/// Some step is for a revision.
pub open spec fn visited(steps: Seq<StepView>, rid: NodeRevisionId) -> bool {
    exists|i: int| 0 <= i < steps.len() && (#[trigger] steps[i]).revision == rid
}

/// The lineage behind `steps`, from `cur` on.
pub open spec fn lineage_from(
    g: GraphView,
    chain: Seq<BranchId>,
    opts: LineageOptions,
    steps: Seq<StepView>,
    cur: NodeRevisionId,
    link: LineageLink,
    left: nat,
) -> Seq<StepView>
    decreases left,
{
    if left == 0 {
        steps
    } else {
        match g.rev(cur) {
            None => steps,
            Some(rev) => if !chain.contains(rev.branch_id) {
                steps
            } else if steps.len() > 0 && !opts.include_tombstones && rev.status
                == RevisionStatus::Tombstone {
                steps
            } else if visited(steps, cur) {
                steps
            } else {
                let more = steps.push(step_for(rev, link));
                match next_back(g, chain, rev, opts) {
                    Some((n, l)) => lineage_from(g, chain, opts, more, n, l, (left - 1) as nat),
                    None => more,
                }
            },
        }
    }
}

/// The lineage of a revision.
pub open spec fn lineage(
    g: GraphView,
    chain: Seq<BranchId>,
    head: NodeRevisionId,
    opts: LineageOptions,
) -> Seq<StepView> {
    lineage_from(g, chain, opts, Seq::empty(), head, LineageLink::Start, opts.max_depth as nat)
}

/// Whether some step is for a revision.
fn was_visited(steps: &Vec<LineageStep>, rid: NodeRevisionId) -> (r: bool)
    ensures
        r == visited(step_views(steps@), rid),
{
    let ghost v = step_views(steps@);
    let mut i: usize = 0;
    while i < steps.len()
        invariant
            i <= steps.len(),
            v == step_views(steps@),
            forall|j: int| 0 <= j < i ==> (#[trigger] v[j]).revision != rid,
        decreases steps.len() - i,
    {
        assert(v[i as int] == steps@[i as int]@);
        if steps[i].revision_id == rid {
            return true;
        }
        i = i + 1;
    }
    false
}

/// Finds where a lineage goes on from a revision.
fn step_back(
    g: &InMemoryGraph,
    chain: &Vec<BranchId>,
    rev: &NodeRevision,
    opts: &LineageOptions,
) -> (r: Option<(NodeRevisionId, LineageLink)>)
    ensures
        r == next_back(g@, chain@, rev@, *opts),
{
    if let Some(p) = rev.parent_revision_id {
        if g.get_revision(p).is_some() {
            return Some((p, LineageLink::ParentRevision));
        }
    }
    if opts.follow_renames {
        if let Some(src) = rev.rename_source_id {
            if let Some(t) = g.tombstone_revision_for_identity_in_chain(chain, src) {
                return Some((t.revision_id, LineageLink::RenameSource));
            }
        }
    }
    None
}

/// Follows the lineage of a revision back, as long as it stays on the chain of branches and comes to
/// no revision twice.
pub fn lineage_from_revision(
    g: &InMemoryGraph,
    chain: &Vec<BranchId>,
    head: NodeRevisionId,
    opts: &LineageOptions,
) -> (r: Vec<LineageStep>)
    ensures
        step_views(r@) == lineage(g@, chain@, head, *opts),
{
    let mut out: Vec<LineageStep> = Vec::new();
    let mut cur = head;
    let mut link = LineageLink::Start;
    let mut left: usize = opts.max_depth;
    assert(step_views(out@) =~= Seq::<StepView>::empty());
    while left > 0
        invariant_except_break
            lineage_from(g@, chain@, *opts, step_views(out@), cur, link, left as nat) == lineage(
                g@,
                chain@,
                head,
                *opts,
            ),
        ensures
            step_views(out@) == lineage(g@, chain@, head, *opts),
        decreases left,
    {
        let rev = match g.get_revision(cur) {
            Some(r) => r,
            None => {
                break;
            },
        };
        let tomb = match rev.status {
            RevisionStatus::Tombstone => true,
            _ => false,
        };
        let ghost before = step_views(out@);
        assert(before.len() == out@.len());
        assert(g@.rev(cur) == Some(rev@));
        if !contains_branch(chain, rev.branch_id) {
            break;
        }
        if out.len() > 0 && !opts.include_tombstones && tomb {
            break;
        }
        if was_visited(&out, cur) {
            break;
        }
        let step = LineageStep {
            revision_id: rev.revision_id,
            identity_id: rev.identity_id,
            qualified_name: owned(rev.qualified_name.as_str()),
            body_hash: rev.body_hash,
            status: rev.status,
            link,
        };
        let ghost sv = step@;
        out.push(step);
        assert(step_views(out@) =~= before.push(step_for(rev@, link)));
        match step_back(g, chain, rev, opts) {
            Some((n, l)) => {
                cur = n;
                link = l;
            },
            None => {
                break;
            },
        }
        left = left - 1;
    }
    out
}

/// Follows the lineage of the revision that an identity stands for.
pub fn lineage_for_identity(
    g: &InMemoryGraph,
    chain: &Vec<BranchId>,
    identity_id: IdentityId,
    absence: Option<&MemoryKv>,
    opts: &LineageOptions,
) -> (r: Option<Vec<LineageStep>>)
    ensures
        match r {
            Some(steps) => query_engine::identity_revision(g@, query_engine::marks_of(absence), chain@, identity_id) matches Some(
                head,
            ) && step_views(steps@) == lineage(g@, chain@, head.revision_id, *opts),
            None => query_engine::identity_revision(g@, query_engine::marks_of(absence), chain@, identity_id) is None,
        },
{
    match resolve_identity_revision_with_absence(g, chain, identity_id, absence) {
        Some(head) => Some(lineage_from_revision(g, chain, head.revision_id, opts)),
        None => None,
    }
}

/// The first step of `theirs` that is for a revision of `ours`.
pub open spec fn first_shared(ours: Seq<StepView>, theirs: Seq<StepView>) -> Option<NodeRevisionId>
    decreases theirs.len(),
{
    if theirs.len() == 0 {
        None
    } else if visited(ours, theirs[0].revision) {
        Some(theirs[0].revision)
    } else {
        first_shared(ours, theirs.skip(1))
    }
}

/// The revision at which two lineages meet.
pub open spec fn merge_base(
    g: GraphView,
    chain: Seq<BranchId>,
    ours: NodeRevisionId,
    theirs: NodeRevisionId,
    opts: LineageOptions,
) -> Option<NodeRevisionId> {
    if g.rev(ours) is None || g.rev(theirs) is None {
        None
    } else {
        first_shared(lineage(g, chain, ours, opts), lineage(g, chain, theirs, opts))
    }
}

/// Finds the revision at which two lineages meet: the first of the second one's that is of the
/// first one too.
pub fn merge_base_revision(
    g: &InMemoryGraph,
    chain: &Vec<BranchId>,
    ours: NodeRevisionId,
    theirs: NodeRevisionId,
    opts: &LineageOptions,
) -> (r: Option<NodeRevisionId>)
    ensures
        r == merge_base(g@, chain@, ours, theirs, *opts),
{
    if g.get_revision(ours).is_none() || g.get_revision(theirs).is_none() {
        return None;
    }
    let a = lineage_from_revision(g, chain, ours, opts);
    let b = lineage_from_revision(g, chain, theirs, opts);
    let ghost av = step_views(a@);
    let ghost bv = step_views(b@);
    let mut i: usize = 0;
    assert(bv.skip(0) =~= bv);
    while i < b.len()
        invariant
            i <= b.len(),
            av == step_views(a@),
            bv == step_views(b@),
            g@.rev(ours) is Some && g@.rev(theirs) is Some,
            av == lineage(g@, chain@, ours, *opts),
            bv == lineage(g@, chain@, theirs, *opts),
            first_shared(av, bv.skip(i as int)) == first_shared(av, bv),
        decreases b.len() - i,
    {
        assert(bv.skip(i as int)[0] == b@[i as int]@);
        assert(bv.skip(i as int).skip(1) =~= bv.skip(i + 1));
        let rid = b[i].revision_id;
        if was_visited(&a, rid) {
            return Some(rid);
        }
        i = i + 1;
    }
    None
}

/// A lineage comes to no revision twice, and grows no longer than it may.
proof fn lemma_lineage_from(
    g: GraphView,
    chain: Seq<BranchId>,
    opts: LineageOptions,
    steps: Seq<StepView>,
    cur: NodeRevisionId,
    link: LineageLink,
    left: nat,
)
    requires
        forall|i: int, j: int|
            0 <= i < j < steps.len() ==> (#[trigger] steps[i]).revision != (
            #[trigger] steps[j]).revision,
    ensures
        ({
            let r = lineage_from(g, chain, opts, steps, cur, link, left);
            &&& forall|i: int, j: int|
                0 <= i < j < r.len() ==> (#[trigger] r[i]).revision != (#[trigger] r[j]).revision
            &&& r.len() <= steps.len() + left
            &&& steps.is_prefix_of(r)
        }),
    decreases left,
{
    if left > 0 {
        if let Some(rev) = g.rev(cur) {
            seqs::lemma_first_is(g.revisions, |r: RevisionView| r.revision_id == cur);
            let more = steps.push(step_for(rev, link));
            if !visited(steps, cur) {
                assert forall|i: int, j: int| 0 <= i < j < more.len() implies (
                #[trigger] more[i]).revision != (#[trigger] more[j]).revision by {
                    if j == steps.len() {
                        assert(more[i] == steps[i]);
                    }
                }
                assert(steps.is_prefix_of(more));
                if let Some((n, l)) = next_back(g, chain, rev, opts) {
                    lemma_lineage_from(g, chain, opts, more, n, l, (left - 1) as nat);
                }
            }
        }
    }
}

/// A lineage comes to no revision twice and is no longer than asked for; it begins with the
/// revision itself where that is on the chain.
pub proof fn law_lineage(
    g: GraphView,
    chain: Seq<BranchId>,
    head: NodeRevisionId,
    opts: LineageOptions,
)
    ensures
        ({
            let r = lineage(g, chain, head, opts);
            &&& forall|i: int, j: int|
                0 <= i < j < r.len() ==> (#[trigger] r[i]).revision != (#[trigger] r[j]).revision
            &&& r.len() <= opts.max_depth
            &&& (g.rev(head) matches Some(rev) ==> (chain.contains(rev.branch_id) && opts.max_depth
                > 0 ==> r.len() > 0 && r[0] == step_for(rev, LineageLink::Start)))
        }),
{
    let none = Seq::<StepView>::empty();
    lemma_lineage_from(
        g,
        chain,
        opts,
        none,
        head,
        LineageLink::Start,
        opts.max_depth as nat,
    );
    if let Some(rev) = g.rev(head) {
        if chain.contains(rev.branch_id) && opts.max_depth > 0 {
            let one = none.push(step_for(rev, LineageLink::Start));
            assert(!visited(none, head));
            if let Some((n, l)) = next_back(g, chain, rev, opts) {
                assert(forall|i: int, j: int|
                    0 <= i < j < one.len() ==> (#[trigger] one[i]).revision != (
                    #[trigger] one[j]).revision);
                lemma_lineage_from(g, chain, opts, one, n, l, (opts.max_depth - 1) as nat);
                let r = lineage(g, chain, head, opts);
                assert(one.is_prefix_of(r));
                assert(one[0] == r[0]);
            }
        }
    }
}

/// Where two lineages meet is a revision of both.
pub proof fn law_merge_base_is_shared(
    g: GraphView,
    chain: Seq<BranchId>,
    ours: NodeRevisionId,
    theirs: NodeRevisionId,
    opts: LineageOptions,
)
    ensures
        merge_base(g, chain, ours, theirs, opts) matches Some(b) ==> visited(
            lineage(g, chain, ours, opts),
            b,
        ) && visited(lineage(g, chain, theirs, opts), b),
{
    lemma_first_shared(lineage(g, chain, ours, opts), lineage(g, chain, theirs, opts));
}

/// What is shared is in both.
proof fn lemma_first_shared(ours: Seq<StepView>, theirs: Seq<StepView>)
    ensures
        first_shared(ours, theirs) matches Some(b) ==> visited(ours, b) && visited(theirs, b),
    decreases theirs.len(),
{
    if theirs.len() > 0 {
        if !visited(ours, theirs[0].revision) {
            let rest = theirs.skip(1);
            lemma_first_shared(ours, rest);
            if let Some(b) = first_shared(ours, theirs) {
                let i = choose|i: int| 0 <= i < rest.len() && (#[trigger] rest[i]).revision == b;
                assert(theirs[i + 1].revision == b);
            }
        } else {
            assert(theirs[0].revision == theirs[0].revision);
        }
    }
}

} // verus!
