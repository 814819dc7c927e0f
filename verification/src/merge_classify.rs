//! The first phase of a merge: what each side did to every identity.

use crate::bindings;
use crate::bindings::{binding_pairs, scan_branch_bindings};
use crate::graph::{GraphView, InMemoryGraph, contains_identity};
use crate::hex;
use crate::hex::hex16;
use crate::ids::{BranchId, IdentityId, MergeId, NodeRevisionId, same_bytes32};
use crate::kv;
use crate::kv::MemoryKv;
use crate::merge_control;
use crate::merge_control::load_msnap_bindings;
use crate::table;
use crate::table::Table;
use crate::text;
use crate::text::{append_text, owned};
use crate::tracker;
use vstd::prelude::*;

verus! {

/// Where a merge stands.
#[derive(Debug, Clone, Copy, PartialEq, Eq, Structural, Default)]
pub enum MergeWorkflowStatus {
    #[default]
    Ready,
    RequiresResolution,
    InProgress,
}

/// What a merge found.
#[derive(Debug, Clone, Default)]
pub struct MergeReport {
    pub status: MergeWorkflowStatus,
    pub resolved_count: usize,
    pub conflicts: Vec<String>,
    pub rename_detections: Vec<String>,
    pub signature_drift: Vec<String>,
    pub dangling_edges: Vec<String>,
    pub cardinality_violations: Vec<String>,
}

/// What the two sides of a merge did to an identity.
#[derive(Debug, Clone, Copy, PartialEq, Eq, Structural)]
pub enum MergeIdentityClass {
    Clean,
    OursOnly,
    TheirsOnly,
    BothModifiedSame,
    BothModifiedUnresolved,
    RenamedCandidate,
    BothDeleted,
    BaseDeletedFeatureNew,
    OursDeletedTheirsModified,
    TheirsDeletedOursModified,
    OursNew,
    TheirsNew,
    BothNewDivergent,
}

/// An identity with its class and its revision on each side.
#[derive(Debug, Clone)]
pub struct ClassifiedMergeIdentity {
    pub identity_id: IdentityId,
    pub class: MergeIdentityClass,
    pub base_revision: Option<NodeRevisionId>,
    pub ours_revision: Option<NodeRevisionId>,
    pub theirs_revision: Option<NodeRevisionId>,
    pub qualified_name: String,
}

/// What a report holds.
#[verifier::ext_equal]
pub struct ReportView {
    pub status: MergeWorkflowStatus,
    pub resolved_count: nat,
    pub conflicts: Seq<Seq<char>>,
    pub rename_detections: Seq<Seq<char>>,
    pub signature_drift: Seq<Seq<char>>,
    pub dangling_edges: Seq<Seq<char>>,
    pub cardinality_violations: Seq<Seq<char>>,
}

impl View for MergeReport {
    type V = ReportView;

    open spec fn view(&self) -> ReportView {
        ReportView {
            status: self.status,
            resolved_count: self.resolved_count as nat,
            conflicts: text::texts(self.conflicts@),
            rename_detections: text::texts(self.rename_detections@),
            signature_drift: text::texts(self.signature_drift@),
            dangling_edges: text::texts(self.dangling_edges@),
            cardinality_violations: text::texts(self.cardinality_violations@),
        }
    }
}

/// What a classified identity holds.
pub struct ClassifiedView {
    pub identity: IdentityId,
    pub class: MergeIdentityClass,
    pub base: Option<NodeRevisionId>,
    pub ours: Option<NodeRevisionId>,
    pub theirs: Option<NodeRevisionId>,
    pub name: Seq<char>,
}

impl View for ClassifiedMergeIdentity {
    type V = ClassifiedView;

    open spec fn view(&self) -> ClassifiedView {
        ClassifiedView {
            identity: self.identity_id,
            class: self.class,
            base: self.base_revision,
            ours: self.ours_revision,
            theirs: self.theirs_revision,
            name: self.qualified_name@,
        }
    }
}

impl ClassifiedMergeIdentity {
    /// A copy.
    pub fn copied(&self) -> (r: ClassifiedMergeIdentity)
        ensures
            r@ == self@,
    {
        ClassifiedMergeIdentity {
            identity_id: self.identity_id,
            class: self.class,
            base_revision: self.base_revision,
            ours_revision: self.ours_revision,
            theirs_revision: self.theirs_revision,
            qualified_name: owned(self.qualified_name.as_str()),
        }
    }
}

/// What classified identities hold.
pub open spec fn classified_views(v: Seq<ClassifiedMergeIdentity>) -> Seq<ClassifiedView> {
    v.map_values(|c: ClassifiedMergeIdentity| c@)
}

/// What the first phase comes to.
#[derive(Debug, Clone)]
pub struct PhaseAResult {
    pub report: MergeReport,
    pub classified: Vec<ClassifiedMergeIdentity>,
}

/// Which side wins a conflict.
#[derive(Debug, Clone, Copy, PartialEq, Eq, Structural)]
pub enum MergeStrategy {
    Ours,
    Theirs,
}

/// The class that changes on both sides and a rename signal give.
pub open spec fn stub_class(ours: bool, theirs: bool, rename: bool) -> MergeIdentityClass {
    if rename {
        MergeIdentityClass::RenamedCandidate
    } else if ours && theirs {
        MergeIdentityClass::BothModifiedUnresolved
    } else {
        MergeIdentityClass::Clean
    }
}

/// Classifies by change flags alone.
pub fn classify_identity_stub(
    ours_changed: bool,
    theirs_changed: bool,
    rename_signal: bool,
) -> (r: MergeIdentityClass)
    ensures
        r == stub_class(ours_changed, theirs_changed, rename_signal),
{
    if rename_signal {
        MergeIdentityClass::RenamedCandidate
    } else if ours_changed && theirs_changed {
        MergeIdentityClass::BothModifiedUnresolved
    } else {
        MergeIdentityClass::Clean
    }
}

/// A report on nothing.
pub open spec fn empty_report() -> ReportView {
    ReportView {
        status: MergeWorkflowStatus::Ready,
        resolved_count: 0,
        conflicts: Seq::empty(),
        rename_detections: Seq::empty(),
        signature_drift: Seq::empty(),
        dangling_edges: Seq::empty(),
        cardinality_violations: Seq::empty(),
    }
}

/// What a conflict of a class is reported as behind the label; `None` where there is no conflict.
pub open spec fn conflict_suffix(class: MergeIdentityClass) -> Option<Seq<char>> {
    match class {
        MergeIdentityClass::BothModifiedUnresolved => Some(Seq::empty()),
        MergeIdentityClass::BothNewDivergent => Some(Seq::empty()),
        MergeIdentityClass::BaseDeletedFeatureNew => Some(":base_deleted_feature"@),
        MergeIdentityClass::OursDeletedTheirsModified => Some(":ours_deleted_theirs_modified"@),
        MergeIdentityClass::TheirsDeletedOursModified => Some(":theirs_deleted_ours_modified"@),
        _ => None,
    }
}

/// A report with one more identity.
pub open spec fn report_step(rep: ReportView, label: Seq<char>, class: MergeIdentityClass) -> ReportView {
    match conflict_suffix(class) {
        Some(suffix) => ReportView {
            status: MergeWorkflowStatus::RequiresResolution,
            conflicts: rep.conflicts.push(label + suffix),
            ..rep
        },
        None => if class == MergeIdentityClass::RenamedCandidate {
            ReportView {
                resolved_count: rep.resolved_count + 1,
                rename_detections: rep.rename_detections.push(label),
                ..rep
            }
        } else {
            ReportView { resolved_count: rep.resolved_count + 1, ..rep }
        },
    }
}

/// The report on labelled classes, in order.
pub open spec fn report_of(items: Seq<(Seq<char>, MergeIdentityClass)>) -> ReportView
    decreases items.len(),
{
    if items.len() == 0 {
        empty_report()
    } else {
        report_step(report_of(items.drop_last()), items.last().0, items.last().1)
    }
}

/// The labels and classes of items.
pub open spec fn item_views(items: Seq<(String, MergeIdentityClass)>) -> Seq<
    (Seq<char>, MergeIdentityClass),
> {
    items.map_values(|x: (String, MergeIdentityClass)| (x.0@, x.1))
}

/// The text behind a conflict's label.
fn suffix_of(class: MergeIdentityClass) -> (r: Option<&'static str>)
    ensures
        match r {
            Some(s) => conflict_suffix(class) == Some(s@),
            None => conflict_suffix(class) is None,
        },
{
    proof {
        reveal_strlit("");
        assert(""@ =~= Seq::<char>::empty());
    }
    match class {
        MergeIdentityClass::BothModifiedUnresolved => Some(""),
        MergeIdentityClass::BothNewDivergent => Some(""),
        MergeIdentityClass::BaseDeletedFeatureNew => Some(":base_deleted_feature"),
        MergeIdentityClass::OursDeletedTheirsModified => Some(":ours_deleted_theirs_modified"),
        MergeIdentityClass::TheirsDeletedOursModified => Some(":theirs_deleted_ours_modified"),
        _ => None,
    }
}

/// Reports on labelled classes.
pub fn merge_phase_a_report(items: &Vec<(String, MergeIdentityClass)>) -> (r: MergeReport)
    ensures
        r@ == report_of(item_views(items@)),
{
    let mut rep = MergeReport {
        status: MergeWorkflowStatus::Ready,
        resolved_count: 0,
        conflicts: Vec::new(),
        rename_detections: Vec::new(),
        signature_drift: Vec::new(),
        dangling_edges: Vec::new(),
        cardinality_violations: Vec::new(),
    };
    let ghost views = item_views(items@);
    let mut i: usize = 0;
    proof {
        assert(views.take(0) =~= Seq::empty());
        assert(rep@ =~= empty_report());
    }
    while i < items.len()
        invariant
            i <= items.len(),
            views == item_views(items@),
            rep.resolved_count <= i,
            rep@ == report_of(views.take(i as int)),
        decreases items.len() - i,
    {
        let ghost before = rep@;
        proof {
            assert(views.take(i + 1).drop_last() =~= views.take(i as int));
            assert(views.take(i + 1).last() == views[i as int]);
        }
        let class = items[i].1;
        match suffix_of(class) {
            Some(suffix) => {
                rep.status = MergeWorkflowStatus::RequiresResolution;
                let mut text = owned(items[i].0.as_str());
                append_text(&mut text, suffix);
                rep.conflicts.push(text);
            },
            None => {
                if class == MergeIdentityClass::RenamedCandidate {
                    rep.rename_detections.push(owned(items[i].0.as_str()));
                }
                rep.resolved_count = rep.resolved_count + 1;
            },
        }
        assert(rep@ =~= report_step(before, views[i as int].0, class));
        i = i + 1;
    }
    assert(views.take(views.len() as int) =~= views);
    rep
}

/// Reports on labelled classes.
pub fn run_phase_a_classify(items: &Vec<(String, MergeIdentityClass)>) -> (r: MergeReport)
    ensures
        r@ == report_of(item_views(items@)),
{
    merge_phase_a_report(items)
}

/// Every item is either resolved or a conflict, and a merge is ready exactly where there is no
/// conflict.
pub proof fn law_report_accounts_for_all(items: Seq<(Seq<char>, MergeIdentityClass)>)
    ensures
        report_of(items).resolved_count + report_of(items).conflicts.len() == items.len(),
        report_of(items).status == MergeWorkflowStatus::Ready <==> report_of(items).conflicts.len()
            == 0,
        report_of(items).status != MergeWorkflowStatus::Ready ==> report_of(items).status
            == MergeWorkflowStatus::RequiresResolution,
        report_of(items).status == MergeWorkflowStatus::Ready <==> forall|i: int|
            0 <= i < items.len() ==> conflict_suffix((#[trigger] items[i]).1) is None,
    decreases items.len(),
{
    if items.len() > 0 {
        let front = items.drop_last();
        law_report_accounts_for_all(front);
        assert(items.last() == items[items.len() - 1]);
        assert forall|i: int| 0 <= i < front.len() implies front[i] == items[i] by {}
        if forall|i: int| 0 <= i < front.len() ==> conflict_suffix((#[trigger] front[i]).1) is None {
            assert forall|i: int| 0 <= i < items.len() && conflict_suffix(items.last().1) is None implies conflict_suffix(
                (#[trigger] items[i]).1,
            ) is None by {
                if i < front.len() {
                    assert(front[i] == items[i]);
                }
            }
        } else {
            let i = choose|i: int|
                0 <= i < front.len() && conflict_suffix((#[trigger] front[i]).1) is Some;
            assert(conflict_suffix(items[i].1) is Some);
        }
    }
}

/// The body of a revision, where the revision is there.
pub open spec fn body_of(g: GraphView, rid: Option<NodeRevisionId>) -> Option<[u8; 32]> {
    match rid {
        Some(r) => match g.rev(r) {
            Some(rev) => Some(rev.body_hash),
            None => None,
        },
        None => None,
    }
}

/// The class that three bodies give.
pub open spec fn class_of(
    base: Option<[u8; 32]>,
    ours: Option<[u8; 32]>,
    theirs: Option<[u8; 32]>,
) -> MergeIdentityClass {
    match (base, ours, theirs) {
        (None, None, None) => MergeIdentityClass::Clean,
        (None, Some(_), None) => MergeIdentityClass::OursNew,
        (None, None, Some(_)) => MergeIdentityClass::TheirsNew,
        (None, Some(o), Some(t)) => if o == t {
            MergeIdentityClass::BothModifiedSame
        } else {
            MergeIdentityClass::BothNewDivergent
        },
        (Some(b), Some(o), Some(t)) => if o == b && t == b {
            MergeIdentityClass::Clean
        } else if o == b {
            MergeIdentityClass::TheirsOnly
        } else if t == b {
            MergeIdentityClass::OursOnly
        } else if o == t {
            MergeIdentityClass::BothModifiedSame
        } else {
            MergeIdentityClass::BothModifiedUnresolved
        },
        (Some(b), Some(o), None) => if o == b {
            MergeIdentityClass::TheirsOnly
        } else {
            MergeIdentityClass::TheirsDeletedOursModified
        },
        (Some(b), None, Some(t)) => if t == b {
            MergeIdentityClass::OursOnly
        } else {
            MergeIdentityClass::OursDeletedTheirsModified
        },
        (Some(_), None, None) => MergeIdentityClass::BothDeleted,
    }
}

/// Reads the body of a revision.
fn read_body(graph: &InMemoryGraph, rid: Option<NodeRevisionId>) -> (r: Option<[u8; 32]>)
    ensures
        r == body_of(graph@, rid),
{
    match rid {
        Some(id) => match graph.get_revision(id) {
            Some(rev) => Some(rev.body_hash),
            None => None,
        },
        None => None,
    }
}

/// Classifies an identity by its revisions on the three sides.
pub fn classify_single_identity(
    graph: &InMemoryGraph,
    base_rid: Option<NodeRevisionId>,
    ours_rid: Option<NodeRevisionId>,
    theirs_rid: Option<NodeRevisionId>,
) -> (r: MergeIdentityClass)
    ensures
        r == class_of(
            body_of(graph@, base_rid),
            body_of(graph@, ours_rid),
            body_of(graph@, theirs_rid),
        ),
{
    match (read_body(graph, base_rid), read_body(graph, ours_rid), read_body(graph, theirs_rid)) {
        (None, None, None) => MergeIdentityClass::Clean,
        (None, Some(_), None) => MergeIdentityClass::OursNew,
        (None, None, Some(_)) => MergeIdentityClass::TheirsNew,
        (None, Some(o), Some(t)) => {
            if same_bytes32(&o, &t) {
                MergeIdentityClass::BothModifiedSame
            } else {
                MergeIdentityClass::BothNewDivergent
            }
        },
        (Some(b), Some(o), Some(t)) => {
            let ours_same = same_bytes32(&o, &b);
            let theirs_same = same_bytes32(&t, &b);
            if ours_same && theirs_same {
                MergeIdentityClass::Clean
            } else if ours_same {
                MergeIdentityClass::TheirsOnly
            } else if theirs_same {
                MergeIdentityClass::OursOnly
            } else if same_bytes32(&o, &t) {
                MergeIdentityClass::BothModifiedSame
            } else {
                MergeIdentityClass::BothModifiedUnresolved
            }
        },
        (Some(b), Some(o), None) => {
            if same_bytes32(&o, &b) {
                MergeIdentityClass::TheirsOnly
            } else {
                MergeIdentityClass::TheirsDeletedOursModified
            }
        },
        (Some(b), None, Some(t)) => {
            if same_bytes32(&t, &b) {
                MergeIdentityClass::OursOnly
            } else {
                MergeIdentityClass::OursDeletedTheirsModified
            }
        },
        (Some(_), None, None) => MergeIdentityClass::BothDeleted,
    }
}

/// What a class becomes when the two sides change places.
pub open spec fn mirrored(class: MergeIdentityClass) -> MergeIdentityClass {
    match class {
        MergeIdentityClass::OursOnly => MergeIdentityClass::TheirsOnly,
        MergeIdentityClass::TheirsOnly => MergeIdentityClass::OursOnly,
        MergeIdentityClass::OursNew => MergeIdentityClass::TheirsNew,
        MergeIdentityClass::TheirsNew => MergeIdentityClass::OursNew,
        MergeIdentityClass::OursDeletedTheirsModified => MergeIdentityClass::TheirsDeletedOursModified,
        MergeIdentityClass::TheirsDeletedOursModified => MergeIdentityClass::OursDeletedTheirsModified,
        _ => class,
    }
}

/// Classifying does not favour a side: with the sides exchanged, the class is the mirrored one.
pub proof fn law_classification_is_symmetric(
    base: Option<[u8; 32]>,
    ours: Option<[u8; 32]>,
    theirs: Option<[u8; 32]>,
)
    ensures
        class_of(base, theirs, ours) == mirrored(class_of(base, ours, theirs)),
{
}

/// The entry of `m` under `i`.
pub open spec fn entry_at(m: Map<IdentityId, NodeRevisionId>, i: IdentityId) -> Option<
    NodeRevisionId,
> {
    if m.contains_key(i) {
        Some(m[i])
    } else {
        None
    }
}

/// The first that is there.
pub open spec fn either(a: Option<NodeRevisionId>, b: Option<NodeRevisionId>) -> Option<
    NodeRevisionId,
> {
    if a is Some {
        a
    } else {
        b
    }
}

/// The name of an identity: that of its revision on the first side that has one.
pub open spec fn merge_name(
    g: GraphView,
    i: IdentityId,
    base: Option<NodeRevisionId>,
    ours: Option<NodeRevisionId>,
    theirs: Option<NodeRevisionId>,
) -> Seq<char> {
    match either(either(ours, theirs), base) {
        Some(r) => match g.rev(r) {
            Some(rev) => rev.qualified_name,
            None => hex::hex_of(i.0@),
        },
        None => hex::hex_of(i.0@),
    }
}

/// How an identity is classified, renames aside.
pub open spec fn classified_alone(
    g: GraphView,
    b: Map<IdentityId, NodeRevisionId>,
    o: Map<IdentityId, NodeRevisionId>,
    t: Map<IdentityId, NodeRevisionId>,
    i: IdentityId,
) -> ClassifiedView {
    let base = entry_at(b, i);
    let ours = entry_at(o, i);
    let theirs = entry_at(t, i);
    ClassifiedView {
        identity: i,
        class: class_of(body_of(g, base), body_of(g, ours), body_of(g, theirs)),
        base,
        ours,
        theirs,
        name: merge_name(g, i, base, ours, theirs),
    }
}

/// Some entry is for `i`.
pub open spec fn classifies(s: Seq<ClassifiedView>, i: IdentityId) -> bool {
    exists|k: int| 0 <= k < s.len() && (#[trigger] s[k]).identity == i
}

/// `pre` classifies every identity that some side binds, each once, renames aside.
pub open spec fn preclassified(
    g: GraphView,
    b: Map<IdentityId, NodeRevisionId>,
    o: Map<IdentityId, NodeRevisionId>,
    t: Map<IdentityId, NodeRevisionId>,
    pre: Seq<ClassifiedView>,
) -> bool {
    &&& forall|k: int, l: int|
        0 <= k < l < pre.len() ==> (#[trigger] pre[k]).identity != (#[trigger] pre[l]).identity
    &&& forall|k: int|
        0 <= k < pre.len() ==> #[trigger] pre[k] == classified_alone(g, b, o, t, pre[k].identity)
    &&& forall|i: IdentityId| #[trigger]
        classifies(pre, i) <==> b.contains_key(i) || o.contains_key(i) || t.contains_key(i)
}

/// An identity that was deleted: on both sides, or on the one side that changed it.
pub open spec fn was_deleted(c: ClassifiedView) -> bool {
    ||| c.class == MergeIdentityClass::BothDeleted
    ||| c.class == MergeIdentityClass::OursOnly && c.ours is None
    ||| c.class == MergeIdentityClass::TheirsOnly && c.theirs is None
}

/// An identity that was created on one side.
pub open spec fn was_created(c: ClassifiedView) -> bool {
    c.class == MergeIdentityClass::OursNew || c.class == MergeIdentityClass::TheirsNew
}

/// Some entry for `i` is a deletion.
pub open spec fn deleted_among(s: Seq<ClassifiedView>, i: IdentityId) -> bool {
    exists|k: int| 0 <= k < s.len() && (#[trigger] s[k]).identity == i && was_deleted(s[k])
}

/// The identity that a created one was renamed from, where that one was deleted.
pub open spec fn renamed_from(g: GraphView, all: Seq<ClassifiedView>, c: ClassifiedView) -> Option<
    IdentityId,
> {
    if was_created(c) {
        match either(c.ours, c.theirs) {
            Some(r) => match g.rev(r) {
                Some(rev) => match rev.rename_source_id {
                    Some(src) => if deleted_among(all, src) {
                        Some(src)
                    } else {
                        None
                    },
                    None => None,
                },
                None => None,
            },
            None => None,
        }
    } else {
        None
    }
}

/// The renames among the first `n` entries: the old identity and the new.
pub open spec fn rename_pairs(g: GraphView, all: Seq<ClassifiedView>, n: nat) -> Seq<
    (IdentityId, IdentityId),
>
    decreases n,
{
    if n == 0 {
        Seq::empty()
    } else {
        let front = rename_pairs(g, all, (n - 1) as nat);
        match renamed_from(g, all, all[n - 1]) {
            Some(src) => front.push((src, all[n - 1].identity)),
            None => front,
        }
    }
}

/// An entry once a rename is taken into account.
pub open spec fn rename_applied(c: ClassifiedView, pair: (IdentityId, IdentityId)) -> ClassifiedView {
    if c.identity == pair.1 {
        ClassifiedView { class: MergeIdentityClass::RenamedCandidate, ..c }
    } else if c.identity == pair.0 {
        ClassifiedView { class: MergeIdentityClass::BothDeleted, ..c }
    } else {
        c
    }
}

/// Entries once renames are taken into account, in order.
pub open spec fn renames_applied(
    s: Seq<ClassifiedView>,
    pairs: Seq<(IdentityId, IdentityId)>,
) -> Seq<ClassifiedView>
    decreases pairs.len(),
{
    if pairs.len() == 0 {
        s
    } else {
        let front = renames_applied(s, pairs.drop_last());
        Seq::new(front.len(), |k: int| rename_applied(front[k], pairs.last()))
    }
}

/// Entries with renames detected.
pub open spec fn renames_detected(g: GraphView, s: Seq<ClassifiedView>) -> Seq<ClassifiedView> {
    renames_applied(s, rename_pairs(g, s, s.len()))
}

/// Whether an entry for `i` is a deletion.
fn is_deleted(classified: &Vec<ClassifiedMergeIdentity>, i: IdentityId) -> (r: bool)
    ensures
        r == deleted_among(classified_views(classified@), i),
{
    let ghost views = classified_views(classified@);
    let mut k: usize = 0;
    while k < classified.len()
        invariant
            k <= classified.len(),
            views == classified_views(classified@),
            forall|j: int|
                0 <= j < k ==> !((#[trigger] views[j]).identity == i && was_deleted(views[j])),
        decreases classified.len() - k,
    {
        let c = &classified[k];
        assert(views[k as int] == c@);
        if c.identity_id == i {
            let deleted = match c.class {
                MergeIdentityClass::BothDeleted => true,
                MergeIdentityClass::OursOnly => c.ours_revision.is_none(),
                MergeIdentityClass::TheirsOnly => c.theirs_revision.is_none(),
                _ => false,
            };
            if deleted {
                return true;
            }
        }
        k = k + 1;
    }
    false
}

/// The identity that an entry was renamed from.
fn rename_source(
    graph: &InMemoryGraph,
    classified: &Vec<ClassifiedMergeIdentity>,
    c: &ClassifiedMergeIdentity,
) -> (r: Option<IdentityId>)
    ensures
        r == renamed_from(graph@, classified_views(classified@), c@),
{
    match c.class {
        MergeIdentityClass::OursNew | MergeIdentityClass::TheirsNew => {},
        _ => {
            return None;
        },
    }
    let rid = if c.ours_revision.is_some() {
        c.ours_revision
    } else {
        c.theirs_revision
    };
    match rid {
        Some(id) => match graph.get_revision(id) {
            Some(rev) => match rev.rename_source_id {
                Some(src) => if is_deleted(classified, src) {
                    Some(src)
                } else {
                    None
                },
                None => None,
            },
            None => None,
        },
        None => None,
    }
}

/// Marks renames: where an identity was created under a new name and the one it was renamed from was
/// deleted, the new one is a rename and the old one counts as deleted on both sides.
pub fn detect_renames(graph: &InMemoryGraph, classified: &mut Vec<ClassifiedMergeIdentity>)
    ensures
        classified_views(final(classified)@) == renames_detected(
            graph@,
            classified_views(old(classified)@),
        ),
{
    let ghost s = classified_views(classified@);
    let mut pairs: Vec<(IdentityId, IdentityId)> = Vec::new();
    let mut i: usize = 0;
    while i < classified.len()
        invariant
            i <= classified.len(),
            s == classified_views(classified@),
            pairs@ == rename_pairs(graph@, s, i as nat),
        decreases classified.len() - i,
    {
        assert(s[i as int] == classified@[i as int]@);
        if let Some(src) = rename_source(graph, classified, &classified[i]) {
            pairs.push((src, classified[i].identity_id));
        }
        i = i + 1;
    }
    let mut p: usize = 0;
    assert(pairs@.take(0) =~= Seq::<(IdentityId, IdentityId)>::empty());
    while p < pairs.len()
        invariant
            p <= pairs.len(),
            classified_views(classified@) == renames_applied(s, pairs@.take(p as int)),
        decreases pairs.len() - p,
    {
        let (old_id, new_id) = pairs[p];
        let ghost before = classified_views(classified@);
        let mut k: usize = 0;
        while k < classified.len()
            invariant
                k <= classified.len(),
                classified.len() == before.len(),
                forall|j: int|
                    0 <= j < k ==> (#[trigger] classified@[j])@ == rename_applied(
                        before[j],
                        (old_id, new_id),
                    ),
                forall|j: int| k <= j < before.len() ==> (#[trigger] classified@[j])@ == before[j],
            decreases classified.len() - k,
        {
            let mut c = classified[k].copied();
            if c.identity_id == new_id {
                c.class = MergeIdentityClass::RenamedCandidate;
            } else if c.identity_id == old_id {
                c.class = MergeIdentityClass::BothDeleted;
            }
            assert(c@ == rename_applied(before[k as int], (old_id, new_id)));
            classified.set(k, c);
            k = k + 1;
        }
        proof {
            assert(pairs@.take(p + 1).drop_last() =~= pairs@.take(p as int));
            assert(pairs@.take(p + 1).last() == (old_id, new_id));
            assert(classified_views(classified@) =~= renames_applied(s, pairs@.take(p + 1)));
        }
        p = p + 1;
    }
    assert(pairs@.take(pairs@.len() as int) =~= pairs@);
}

/// Renames keep every entry but for its class.
pub proof fn lemma_renames_keep(s: Seq<ClassifiedView>, pairs: Seq<(IdentityId, IdentityId)>)
    ensures
        renames_applied(s, pairs).len() == s.len(),
        forall|k: int|
            0 <= k < s.len() ==> (#[trigger] renames_applied(s, pairs)[k]) == (ClassifiedView {
                class: renames_applied(s, pairs)[k].class,
                ..s[k]
            }),
    decreases pairs.len(),
{
    if pairs.len() > 0 {
        lemma_renames_keep(s, pairs.drop_last());
    }
}

/// Which renames there are among the first entries.
pub proof fn lemma_rename_pairs(g: GraphView, all: Seq<ClassifiedView>, n: nat)
    requires
        n <= all.len(),
    ensures
        forall|p: int|
            0 <= p < rename_pairs(g, all, n).len() ==> deleted_among(
                all,
                (#[trigger] rename_pairs(g, all, n)[p]).0,
            ) && exists|k: int|
                0 <= k < n && was_created(#[trigger] all[k]) && all[k].identity == rename_pairs(
                    g,
                    all,
                    n,
                )[p].1,
    decreases n,
{
    if n > 0 {
        lemma_rename_pairs(g, all, (n - 1) as nat);
        let front = rename_pairs(g, all, (n - 1) as nat);
        let now = rename_pairs(g, all, n);
        assert forall|p: int| 0 <= p < now.len() implies deleted_among(all, (#[trigger] now[p]).0)
            && exists|k: int|
            0 <= k < n && was_created(#[trigger] all[k]) && all[k].identity == now[p].1 by {
            if p < front.len() {
                assert(now[p] == front[p]);
                let k = choose|k: int|
                    0 <= k < n - 1 && was_created(#[trigger] all[k]) && all[k].identity == front[p].1;
                assert(was_created(all[k]));
            } else {
                assert(was_created(all[n - 1]) && all[n - 1].identity == now[p].1);
            }
        }
    }
}

/// An entry that no rename names stays as it is.
pub proof fn lemma_unnamed_stays(s: Seq<ClassifiedView>, pairs: Seq<(IdentityId, IdentityId)>, k: int)
    requires
        0 <= k < s.len(),
        forall|p: int|
            0 <= p < pairs.len() ==> (#[trigger] pairs[p]).0 != s[k].identity && pairs[p].1
                != s[k].identity,
    ensures
        renames_applied(s, pairs)[k] == s[k],
    decreases pairs.len(),
{
    lemma_renames_keep(s, pairs);
    if pairs.len() > 0 {
        let front = pairs.drop_last();
        assert forall|p: int| 0 <= p < front.len() implies (#[trigger] front[p]).0 != s[k].identity
            && front[p].1 != s[k].identity by {
            assert(front[p] == pairs[p]);
        }
        lemma_unnamed_stays(s, front, k);
        lemma_renames_keep(s, front);
        assert(pairs.last() == pairs[pairs.len() - 1]);
    }
}

/// Looking for renames touches only what was created and what was deleted: where every identity has
/// one entry, an identity that was merely edited stays as it was classified.
pub proof fn law_edits_are_not_renamed(g: GraphView, s: Seq<ClassifiedView>, k: int)
    requires
        0 <= k < s.len(),
        forall|i: int, j: int|
            0 <= i < j < s.len() ==> (#[trigger] s[i]).identity != (#[trigger] s[j]).identity,
        !was_deleted(s[k]),
        !was_created(s[k]),
    ensures
        renames_detected(g, s)[k] == s[k],
{
    let pairs = rename_pairs(g, s, s.len());
    lemma_rename_pairs(g, s, s.len());
    assert forall|p: int| 0 <= p < pairs.len() implies (#[trigger] pairs[p]).0 != s[k].identity
        && pairs[p].1 != s[k].identity by {
        let d = choose|d: int|
            0 <= d < s.len() && (#[trigger] s[d]).identity == pairs[p].0 && was_deleted(s[d]);
        let c = choose|c: int|
            0 <= c < s.len() && was_created(#[trigger] s[c]) && s[c].identity == pairs[p].1;
        assert(d != k && c != k);
    }
    lemma_unnamed_stays(s, pairs, k);
}

/// The identities of the tables, each once.
fn union_of_keys(
    b: &Table<IdentityId, NodeRevisionId>,
    o: &Table<IdentityId, NodeRevisionId>,
    t: &Table<IdentityId, NodeRevisionId>,
) -> (r: Vec<IdentityId>)
    ensures
        r@.no_duplicates(),
        forall|i: IdentityId| #[trigger]
            r@.contains(i) <==> b@.contains_key(i) || o@.contains_key(i) || t@.contains_key(i),
{
    let mut out: Vec<IdentityId> = Vec::new();
    add_keys(&mut out, b);
    add_keys(&mut out, o);
    add_keys(&mut out, t);
    out
}

/// Adds the identities of a table that are not there yet.
fn add_keys(out: &mut Vec<IdentityId>, t: &Table<IdentityId, NodeRevisionId>)
    requires
        old(out)@.no_duplicates(),
    ensures
        final(out)@.no_duplicates(),
        forall|i: IdentityId| #[trigger]
            final(out)@.contains(i) <==> old(out)@.contains(i) || t@.contains_key(i),
{
    let pairs = binding_pairs(t);
    let ghost before = out@;
    let mut k: usize = 0;
    while k < pairs.len()
        invariant
            k <= pairs.len(),
            bindings::pairs_of(t@, pairs@),
            out@.no_duplicates(),
            forall|i: IdentityId| #[trigger]
                out@.contains(i) <==> before.contains(i) || exists|j: int|
                    0 <= j < k && (#[trigger] pairs@[j]).0 == i,
        decreases pairs.len() - k,
    {
        let ghost o1 = out@;
        let id = pairs[k].0;
        if !contains_identity(out, id) {
            out.push(id);
        }
        proof {
            assert forall|i: IdentityId| #[trigger] out@.contains(i) <==> before.contains(i) || exists|
                j: int,
            |
                0 <= j < k + 1 && (#[trigger] pairs@[j]).0 == i by {
                tracker::lemma_push_contains(o1, id, i);
                assert(o1.contains(i) <==> before.contains(i) || exists|j: int|
                    0 <= j < k && (#[trigger] pairs@[j]).0 == i);
                assert(pairs@[k as int].0 == id);
            }
        }
        k = k + 1;
    }
    proof {
        assert forall|i: IdentityId| #[trigger] out@.contains(i) <==> before.contains(i)
            || t@.contains_key(i) by {
            if exists|j: int| 0 <= j < pairs@.len() && (#[trigger] pairs@[j]).0 == i {
                let j = choose|j: int| 0 <= j < pairs@.len() && (#[trigger] pairs@[j]).0 == i;
                assert(t@.contains_pair(pairs@[j].0, pairs@[j].1));
            }
        }
    }
}

/// What the first phase comes to for given bindings.
pub open spec fn phase_a(
    g: GraphView,
    b: Map<IdentityId, NodeRevisionId>,
    o: Map<IdentityId, NodeRevisionId>,
    t: Map<IdentityId, NodeRevisionId>,
    report: ReportView,
    classified: Seq<ClassifiedView>,
) -> bool {
    &&& exists|pre: Seq<ClassifiedView>| #[trigger]
        preclassified(g, b, o, t, pre) && classified == renames_detected(g, pre)
    &&& report == report_of(labels_of(classified))
}

/// The names and classes of entries.
pub open spec fn labels_of(s: Seq<ClassifiedView>) -> Seq<(Seq<char>, MergeIdentityClass)> {
    s.map_values(|c: ClassifiedView| (c.name, c.class))
}

/// Reads an entry.
fn entry_of(t: &Table<IdentityId, NodeRevisionId>, i: IdentityId) -> (r: Option<NodeRevisionId>)
    ensures
        r == entry_at(t@, i),
{
    match t.get(&i) {
        Some(r) => Some(*r),
        None => None,
    }
}

/// The name that an identity goes by in a merge.
fn name_for_merge(
    graph: &InMemoryGraph,
    i: IdentityId,
    base: Option<NodeRevisionId>,
    ours: Option<NodeRevisionId>,
    theirs: Option<NodeRevisionId>,
) -> (r: String)
    ensures
        r@ == merge_name(graph@, i, base, ours, theirs),
{
    let rid = if ours.is_some() {
        ours
    } else if theirs.is_some() {
        theirs
    } else {
        base
    };
    match rid {
        Some(id) => match graph.get_revision(id) {
            Some(rev) => owned(rev.qualified_name.as_str()),
            None => hex16(&i.0),
        },
        None => hex16(&i.0),
    }
}

/// Classifies every identity that one of three sets of bindings binds.
pub fn classify_bindings(
    graph: &InMemoryGraph,
    base_bindings: &Table<IdentityId, NodeRevisionId>,
    ours_bindings: &Table<IdentityId, NodeRevisionId>,
    theirs_bindings: &Table<IdentityId, NodeRevisionId>,
) -> (r: PhaseAResult)
    ensures
        phase_a(
            graph@,
            base_bindings@,
            ours_bindings@,
            theirs_bindings@,
            r.report@,
            classified_views(r.classified@),
        ),
{
    let ghost (b, o, t) = (base_bindings@, ours_bindings@, theirs_bindings@);
    let all = union_of_keys(base_bindings, ours_bindings, theirs_bindings);
    let mut classified: Vec<ClassifiedMergeIdentity> = Vec::new();
    let mut k: usize = 0;
    while k < all.len()
        invariant
            k <= all.len(),
            b == base_bindings@ && o == ours_bindings@ && t == theirs_bindings@,
            classified.len() == k,
            forall|j: int|
                0 <= j < k ==> (#[trigger] classified@[j])@ == classified_alone(
                    graph@,
                    b,
                    o,
                    t,
                    all@[j],
                ),
        decreases all.len() - k,
    {
        let i = all[k];
        let base = entry_of(base_bindings, i);
        let ours = entry_of(ours_bindings, i);
        let theirs = entry_of(theirs_bindings, i);
        let c = ClassifiedMergeIdentity {
            identity_id: i,
            class: classify_single_identity(graph, base, ours, theirs),
            base_revision: base,
            ours_revision: ours,
            theirs_revision: theirs,
            qualified_name: name_for_merge(graph, i, base, ours, theirs),
        };
        assert(c@ == classified_alone(graph@, b, o, t, i));
        classified.push(c);
        k = k + 1;
    }
    let ghost pre = classified_views(classified@);
    proof {
        assert forall|i: IdentityId| #[trigger] classifies(pre, i) <==> b.contains_key(i)
            || o.contains_key(i) || t.contains_key(i) by {
            if all@.contains(i) {
                let k = choose|k: int| 0 <= k < all@.len() && all@[k] == i;
                assert(pre[k].identity == i);
            }
            if classifies(pre, i) {
                let k = choose|k: int| 0 <= k < pre.len() && (#[trigger] pre[k]).identity == i;
                assert(all@[k] == i);
            }
        }
        assert(preclassified(graph@, b, o, t, pre));
    }
    detect_renames(graph, &mut classified);
    let report = report_on(&classified);
    PhaseAResult { report, classified }
}

/// Reports on classified identities.
fn report_on(classified: &Vec<ClassifiedMergeIdentity>) -> (r: MergeReport)
    ensures
        r@ == report_of(labels_of(classified_views(classified@))),
{
    let mut items: Vec<(String, MergeIdentityClass)> = Vec::new();
    let mut k: usize = 0;
    while k < classified.len()
        invariant
            k <= classified.len(),
            items.len() == k,
            forall|j: int|
                0 <= j < k ==> (#[trigger] items@[j]).0@ == classified@[j].qualified_name@
                    && items@[j].1 == classified@[j].class,
        decreases classified.len() - k,
    {
        items.push((owned(classified[k].qualified_name.as_str()), classified[k].class));
        k = k + 1;
    }
    assert(item_views(items@) =~= labels_of(classified_views(classified@)));
    merge_phase_a_report(&items)
}

/// Classifies every identity that one of three branches binds.
pub fn phase_a_classify(
    graph: &InMemoryGraph,
    kv: &MemoryKv,
    ours_branch: BranchId,
    theirs_branch: BranchId,
    base_branch: BranchId,
) -> (r: PhaseAResult)
    ensures
        phase_a_of_branches(
            graph@,
            kv@,
            ours_branch,
            theirs_branch,
            base_branch,
            r.report@,
            classified_views(r.classified@),
        ),
{
    let base = scan_branch_bindings(kv, base_branch);
    let ours = scan_branch_bindings(kv, ours_branch);
    let theirs = scan_branch_bindings(kv, theirs_branch);
    classify_bindings(graph, &base, &ours, &theirs)
}

/// What the first phase comes to for three branches.
pub open spec fn phase_a_of_branches(
    g: GraphView,
    m: Map<Seq<char>, Seq<u8>>,
    ours: BranchId,
    theirs: BranchId,
    base: BranchId,
    report: ReportView,
    classified: Seq<ClassifiedView>,
) -> bool {
    exists|
        b: Map<IdentityId, NodeRevisionId>,
        o: Map<IdentityId, NodeRevisionId>,
        t: Map<IdentityId, NodeRevisionId>,
    |
        bindings::branch_binds(m, base, b) && bindings::branch_binds(m, ours, o) && bindings::branch_binds(m, theirs, t)
            && #[trigger] phase_a(g, b, o, t, report, classified)
}

/// What the first phase comes to for two branches and given base bindings.
pub open spec fn phase_a_over_base(
    g: GraphView,
    m: Map<Seq<char>, Seq<u8>>,
    ours: BranchId,
    theirs: BranchId,
    base: Map<IdentityId, NodeRevisionId>,
    report: ReportView,
    classified: Seq<ClassifiedView>,
) -> bool {
    exists|o: Map<IdentityId, NodeRevisionId>, t: Map<IdentityId, NodeRevisionId>|
        bindings::branch_binds(m, ours, o) && bindings::branch_binds(m, theirs, t) && #[trigger] phase_a(
            g,
            base,
            o,
            t,
            report,
            classified,
        )
}

/// Classifies every identity that two branches or the given base bindings bind.
pub fn phase_a_classify_with_base(
    graph: &InMemoryGraph,
    kv: &MemoryKv,
    ours_branch: BranchId,
    theirs_branch: BranchId,
    base_bindings: &Table<IdentityId, NodeRevisionId>,
) -> (r: PhaseAResult)
    ensures
        phase_a_over_base(
            graph@,
            kv@,
            ours_branch,
            theirs_branch,
            base_bindings@,
            r.report@,
            classified_views(r.classified@),
        ),
{
    let ours = scan_branch_bindings(kv, ours_branch);
    let theirs = scan_branch_bindings(kv, theirs_branch);
    classify_bindings(graph, base_bindings, &ours, &theirs)
}

/// `base` are the bindings that a merge's snapshot holds for its target.
pub open spec fn snapshot_base(
    m: Map<Seq<char>, Seq<u8>>,
    merge_id: MergeId,
    target: BranchId,
    base: Map<IdentityId, NodeRevisionId>,
) -> bool {
    exists|rows: Seq<(String, Vec<u8>)>| #[trigger]
        kv::scanned(m, merge_control::snapshot_prefix(merge_id), rows) && base == merge_control::row_bindings(rows, target)
}

/// What the first phase of a merge comes to: its snapshot is the base, or, where that holds
/// nothing, the fallback branch.
pub open spec fn phase_a_of_merge(
    g: GraphView,
    m: Map<Seq<char>, Seq<u8>>,
    merge_id: MergeId,
    ours: BranchId,
    theirs: BranchId,
    target: BranchId,
    fallback: BranchId,
    report: ReportView,
    classified: Seq<ClassifiedView>,
) -> bool {
    exists|base: Map<IdentityId, NodeRevisionId>| #[trigger]
        snapshot_base(m, merge_id, target, base) && (if base.dom().is_empty() {
            phase_a_of_branches(g, m, ours, theirs, fallback, report, classified)
        } else {
            phase_a_over_base(g, m, ours, theirs, base, report, classified)
        })
}

/// Classifies for a merge.
pub fn phase_a_for_merge(
    graph: &InMemoryGraph,
    kv: &MemoryKv,
    merge_id: MergeId,
    ours_branch: BranchId,
    theirs_branch: BranchId,
    target_branch: BranchId,
    fallback_base_branch: BranchId,
) -> (r: PhaseAResult)
    ensures
        phase_a_of_merge(
            graph@,
            kv@,
            merge_id,
            ours_branch,
            theirs_branch,
            target_branch,
            fallback_base_branch,
            r.report@,
            classified_views(r.classified@),
        ),
{
    let base = load_msnap_bindings(kv, merge_id, target_branch);
    proof {
        assert(snapshot_base(kv@, merge_id, target_branch, base@));
    }
    let n = base.len();
    proof {
        table::lemma_map_of(base.rows());
        if n == 0 {
            assert(base@.dom() =~= Set::<IdentityId>::empty());
        } else {
            assert(base@.contains_key(base.rows()[0].0));
        }
    }
    if n == 0 {
        phase_a_classify(graph, kv, ours_branch, theirs_branch, fallback_base_branch)
    } else {
        phase_a_classify_with_base(graph, kv, ours_branch, theirs_branch, &base)
    }
}

/// Every identity that a side binds is classified exactly once, and no other; each is reported as
/// resolved or as a conflict.
pub proof fn law_each_identity_once(
    g: GraphView,
    b: Map<IdentityId, NodeRevisionId>,
    o: Map<IdentityId, NodeRevisionId>,
    t: Map<IdentityId, NodeRevisionId>,
    report: ReportView,
    classified: Seq<ClassifiedView>,
    i: IdentityId,
)
    requires
        phase_a(g, b, o, t, report, classified),
    ensures
        forall|k: int, l: int|
            0 <= k < l < classified.len() ==> (#[trigger] classified[k]).identity != (
            #[trigger] classified[l]).identity,
        classifies(classified, i) <==> b.contains_key(i) || o.contains_key(i) || t.contains_key(i),
        report.resolved_count + report.conflicts.len() == classified.len(),
{
    let pre = choose|pre: Seq<ClassifiedView>| #[trigger]
        preclassified(g, b, o, t, pre) && classified == renames_detected(g, pre);
    lemma_renames_keep(pre, rename_pairs(g, pre, pre.len()));
    law_report_accounts_for_all(labels_of(classified));
    assert(classified.len() == pre.len());
    assert forall|k: int| 0 <= k < classified.len() implies (#[trigger] classified[k]).identity
        == pre[k].identity by {
        assert(renames_applied(pre, rename_pairs(g, pre, pre.len()))[k] == classified[k]);
    }
    assert(classifies(pre, i) <==> classifies(classified, i)) by {
        if classifies(pre, i) {
            let k = choose|k: int| 0 <= k < pre.len() && (#[trigger] pre[k]).identity == i;
            assert(classified[k].identity == i);
        }
        if classifies(classified, i) {
            let k = choose|k: int|
                0 <= k < classified.len() && (#[trigger] classified[k]).identity == i;
            assert(pre[k].identity == i);
        }
    }
}

} // verus!
