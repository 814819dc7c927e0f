//! The revision graph: symbols, their revisions, and the edges that leave a revision.

use crate::ids::{BranchId, IdentityId, NodeRevisionId, same_bytes16, same_bytes32};
use crate::seqs;
use crate::table;
use crate::table::{Table, TableKey};
use crate::text::{owned, same_text};
use vstd::prelude::*;

verus! {

/// What a symbol is.
#[derive(Debug, Clone, Copy, PartialEq, Eq, Structural)]
pub enum NodeKind {
    File,
    Class,
    Function,
    Stub,
}

/// The language of a source file.
#[derive(Debug, Clone, Copy, PartialEq, Eq, Structural)]
pub enum Language {
    Python,
    TypeScript,
    Rust,
    Unknown,
}

/// Where a revision stands in its life.
#[derive(Debug, Clone, Copy, PartialEq, Eq, Structural)]
pub enum RevisionStatus {
    Active,
    Speculative,
    Tombstone,
    Orphaned,
}

/// How a revision relates to a symbol.
#[derive(Debug, Clone, Copy, PartialEq, Eq, Structural)]
pub enum EdgeType {
    Calls,
    Imports,
    Extends,
    Uses,
    Configures,
    CoLocated,
    TestOf,
    RenamedFrom,
}

/// What resolved an edge.
#[derive(Debug, Clone, Copy, PartialEq, Eq, Structural)]
pub enum SourceType {
    Ast,
    Lsp,
    Heuristic,
}

/// A stretch of source text; lines and columns count from one.
#[derive(Debug, Clone, Copy, PartialEq, Eq, Structural)]
pub struct SourceSpan {
    pub start_line: u32,
    pub start_col: u32,
    pub end_line: u32,
    pub end_col: u32,
}

/// The span of text that was never located.
pub open spec fn unknown_span() -> SourceSpan {
    SourceSpan { start_line: 0, start_col: 0, end_line: 0, end_col: 0 }
}

impl SourceSpan {
    /// The span of text that was never located.
    pub fn unknown() -> (r: SourceSpan)
        ensures
            r == unknown_span(),
    {
        SourceSpan { start_line: 0, start_col: 0, end_line: 0, end_col: 0 }
    }

    /// Whether the text was never located.
    pub fn is_unknown(&self) -> (r: bool)
        ensures
            r == (*self == unknown_span()),
    {
        self.start_line == 0 && self.start_col == 0 && self.end_line == 0 && self.end_col == 0
    }
}

/// A symbol.
#[derive(Debug, Clone, Copy)]
pub struct NodeIdentity {
    pub identity_id: IdentityId,
    pub kind: NodeKind,
}

/// One revision of a symbol on a branch.
#[derive(Debug, Clone)]
pub struct NodeRevision {
    pub revision_id: NodeRevisionId,
    pub identity_id: IdentityId,
    pub branch_id: BranchId,
    pub status: RevisionStatus,
    pub qualified_name: String,
    pub file_path: String,
    pub body_hash: [u8; 32],
    pub signature_hash: [u8; 32],
    pub language: Language,
    pub parent_revision_id: Option<NodeRevisionId>,
    pub rename_source_id: Option<IdentityId>,
    pub span: SourceSpan,
    pub tombstoned_at_ms: Option<u64>,
}

/// What a revision holds.
pub struct RevisionView {
    pub revision_id: NodeRevisionId,
    pub identity_id: IdentityId,
    pub branch_id: BranchId,
    pub status: RevisionStatus,
    pub qualified_name: Seq<char>,
    pub file_path: Seq<char>,
    pub body_hash: [u8; 32],
    pub signature_hash: [u8; 32],
    pub language: Language,
    pub parent_revision_id: Option<NodeRevisionId>,
    pub rename_source_id: Option<IdentityId>,
    pub span: SourceSpan,
    pub tombstoned_at_ms: Option<u64>,
}

impl View for NodeRevision {
    type V = RevisionView;

    open spec fn view(&self) -> RevisionView {
        RevisionView {
            revision_id: self.revision_id,
            identity_id: self.identity_id,
            branch_id: self.branch_id,
            status: self.status,
            qualified_name: self.qualified_name@,
            file_path: self.file_path@,
            body_hash: self.body_hash,
            signature_hash: self.signature_hash,
            language: self.language,
            parent_revision_id: self.parent_revision_id,
            rename_source_id: self.rename_source_id,
            span: self.span,
            tombstoned_at_ms: self.tombstoned_at_ms,
        }
    }
}

impl NodeRevision {
    /// A second copy.
    pub fn copied(&self) -> (r: NodeRevision)
        ensures
            r@ == self@,
    {
        NodeRevision {
            revision_id: self.revision_id,
            identity_id: self.identity_id,
            branch_id: self.branch_id,
            status: self.status,
            qualified_name: self.qualified_name.clone(),
            file_path: self.file_path.clone(),
            body_hash: self.body_hash,
            signature_hash: self.signature_hash,
            language: self.language,
            parent_revision_id: self.parent_revision_id,
            rename_source_id: self.rename_source_id,
            span: self.span,
            tombstoned_at_ms: self.tombstoned_at_ms,
        }
    }
}

/// How an edge found its target.
#[derive(Debug, Clone, Copy)]
pub struct EdgeResolution {
    pub target_signature_hash: [u8; 32],
    pub resolver: SourceType,
    pub last_validation_ms: u64,
}

/// An edge from a revision to a symbol.
#[derive(Debug, Clone, Copy)]
pub struct GraphEdge {
    pub edge_id: [u8; 16],
    pub ty: EdgeType,
    pub source_revision_id: NodeRevisionId,
    pub target_identity_id: IdentityId,
    pub resolution: EdgeResolution,
    pub anchor: SourceSpan,
}

/// Whether two edges are one.
pub fn same_edge(a: &GraphEdge, b: &GraphEdge) -> (r: bool)
    ensures
        r == (*a == *b),
{
    same_bytes16(&a.edge_id, &b.edge_id) && a.ty == b.ty && a.source_revision_id
        == b.source_revision_id && a.target_identity_id == b.target_identity_id && same_bytes32(
        &a.resolution.target_signature_hash,
        &b.resolution.target_signature_hash,
    ) && a.resolution.resolver == b.resolution.resolver && a.resolution.last_validation_ms
        == b.resolution.last_validation_ms && a.anchor == b.anchor
}

/// Whether two lists of edges are one.
pub fn same_edges(a: &Vec<GraphEdge>, b: &Vec<GraphEdge>) -> (r: bool)
    ensures
        r == (a@ == b@),
{
    if a.len() != b.len() {
        return false;
    }
    let mut i: usize = 0;
    while i < a.len()
        invariant
            a.len() == b.len(),
            i <= a.len(),
            forall|k: int| 0 <= k < i ==> a@[k] == b@[k],
        decreases a.len() - i,
    {
        if !same_edge(&a[i], &b[i]) {
            return false;
        }
        i = i + 1;
    }
    assert(a@ =~= b@);
    true
}

/// A copy of a list of edges.
pub fn copy_edges(a: &Vec<GraphEdge>) -> (r: Vec<GraphEdge>)
    ensures
        r@ == a@,
{
    let mut out: Vec<GraphEdge> = Vec::new();
    let mut i: usize = 0;
    while i < a.len()
        invariant
            i <= a.len(),
            out@ == a@.take(i as int),
        decreases a.len() - i,
    {
        out.push(a[i]);
        assert(out@ =~= a@.take(i + 1));
        i = i + 1;
    }
    assert(a@.take(a@.len() as int) =~= a@);
    out
}

impl TableKey for IdentityId {
    type Name = IdentityId;

    open spec fn name(&self) -> IdentityId {
        *self
    }

    fn same(&self, other: &Self) -> (r: bool) {
        same_bytes16(&self.0, &other.0)
    }

    fn duplicate(&self) -> (r: Self) {
        *self
    }
}

impl TableKey for NodeRevisionId {
    type Name = NodeRevisionId;

    open spec fn name(&self) -> NodeRevisionId {
        *self
    }

    fn same(&self, other: &Self) -> (r: bool) {
        same_bytes16(&self.0, &other.0)
    }

    fn duplicate(&self) -> (r: Self) {
        *self
    }
}

/// A file on a branch.
#[derive(Debug, Clone)]
pub struct FilePlace {
    pub branch: BranchId,
    pub path: String,
}

impl TableKey for FilePlace {
    type Name = (BranchId, Seq<char>);

    open spec fn name(&self) -> (BranchId, Seq<char>) {
        (self.branch, self.path@)
    }

    fn same(&self, other: &Self) -> (r: bool) {
        same_bytes16(&self.branch.0, &other.branch.0) && same_text(
            self.path.as_str(),
            other.path.as_str(),
        )
    }

    fn duplicate(&self) -> (r: Self) {
        FilePlace { branch: self.branch, path: owned(self.path.as_str()) }
    }
}

/// What a graph holds.
#[verifier::ext_equal]
pub struct GraphView {
    /// The revisions, in the order in which they were first put.
    pub revisions: Seq<RevisionView>,
    pub kinds: Map<IdentityId, NodeKind>,
    pub edges: Map<NodeRevisionId, Seq<GraphEdge>>,
    /// The ids that are derived for the hubs of files, by branch and path.
    pub hub_ids: Map<(BranchId, Seq<char>), NodeRevisionId>,
}

/// The values of a list of revisions.
pub open spec fn revision_views(v: Seq<NodeRevision>) -> Seq<RevisionView> {
    v.map_values(|r: NodeRevision| r@)
}

/// `revs` with the first revision of this id replaced, or with the revision put last.
pub open spec fn put_into(revs: Seq<RevisionView>, r: RevisionView) -> Seq<RevisionView>
    decreases revs.len(),
{
    if revs.len() == 0 {
        seq![r]
    } else if revs[0].revision_id == r.revision_id {
        seq![r] + revs.drop_first()
    } else {
        seq![revs[0]] + put_into(revs.drop_first(), r)
    }
}

/// No two revisions have one id.
pub open spec fn ids_unique(revs: Seq<RevisionView>) -> bool {
    forall|i: int, j: int|
        0 <= i < j < revs.len() ==> (#[trigger] revs[i]).revision_id != (
        #[trigger] revs[j]).revision_id
}

impl GraphView {
    /// The revision of this id.
    pub open spec fn rev(self, rid: NodeRevisionId) -> Option<RevisionView> {
        seqs::first_such(self.revisions, |r: RevisionView| r.revision_id == rid)
    }

    /// The edges that leave a revision.
    pub open spec fn out(self, rid: NodeRevisionId) -> Seq<GraphEdge> {
        if self.edges.contains_key(rid) {
            self.edges[rid]
        } else {
            Seq::empty()
        }
    }

    /// What a symbol is.
    pub open spec fn kind(self, iid: IdentityId) -> Option<NodeKind> {
        if self.kinds.contains_key(iid) {
            Some(self.kinds[iid])
        } else {
            None
        }
    }

    /// The id that is derived for the hub of a file on a branch.
    pub open spec fn hub_id(self, branch: BranchId, path: Seq<char>) -> Option<NodeRevisionId> {
        if self.hub_ids.contains_key((branch, path)) {
            Some(self.hub_ids[(branch, path)])
        } else {
            None
        }
    }

    /// The graph with a revision put.
    pub open spec fn put(self, r: RevisionView) -> GraphView {
        GraphView { revisions: put_into(self.revisions, r), ..self }
    }

    /// The graph with the status of a revision changed.
    pub open spec fn with_status(self, rid: NodeRevisionId, status: RevisionStatus) -> GraphView {
        match self.rev(rid) {
            Some(r) => self.put(RevisionView { status, ..r }),
            None => self,
        }
    }

    /// The graph with the edges of a revision replaced.
    pub open spec fn with_edges(self, rid: NodeRevisionId, edges: Seq<GraphEdge>) -> GraphView {
        GraphView { edges: self.edges.insert(rid, edges), ..self }
    }

    /// The graph without a revision and its edges.
    pub open spec fn without(self, rid: NodeRevisionId) -> GraphView {
        GraphView {
            revisions: self.revisions.filter(|r: RevisionView| r.revision_id != rid),
            edges: self.edges.remove(rid),
            ..self
        }
    }

    /// The symbol that a renamed revision lives on as.
    pub open spec fn rename_successor(self, rid: NodeRevisionId) -> Option<IdentityId> {
        match seqs::first_such(self.out(rid), |e: GraphEdge| e.ty == EdgeType::RenamedFrom) {
            Some(e) => Some(e.target_identity_id),
            None => None,
        }
    }

    /// The first revision of a symbol on a branch in a given status.
    pub open spec fn in_status(
        self,
        branch: BranchId,
        iid: IdentityId,
        status: RevisionStatus,
    ) -> Option<RevisionView> {
        seqs::first_such(
            self.revisions,
            |r: RevisionView|
                r.branch_id == branch && r.identity_id == iid && r.status == status,
        )
    }

    /// The first tombstone of a symbol on a branch that names a successor.
    pub open spec fn bridge(self, branch: BranchId, iid: IdentityId) -> Option<RevisionView> {
        seqs::first_such(
            self.revisions,
            |r: RevisionView|
                r.branch_id == branch && r.identity_id == iid && r.status
                    == RevisionStatus::Tombstone && self.rename_successor(r.revision_id) is Some,
        )
    }

    /// The revision that stands for a symbol on a branch: an active one, else a speculative one,
    /// else a tombstone that names a successor.
    pub open spec fn primary(self, branch: BranchId, iid: IdentityId) -> Option<RevisionView> {
        if self.in_status(branch, iid, RevisionStatus::Active) is Some {
            self.in_status(branch, iid, RevisionStatus::Active)
        } else if self.in_status(branch, iid, RevisionStatus::Speculative) is Some {
            self.in_status(branch, iid, RevisionStatus::Speculative)
        } else {
            self.bridge(branch, iid)
        }
    }

    /// The revision that stands for a symbol on the nearest branch of a chain that has one. A tombstone
    /// on a nearer branch hides what branches behind it have.
    pub open spec fn primary_in_chain(self, chain: Seq<BranchId>, iid: IdentityId) -> Option<
        RevisionView,
    >
        decreases chain.len(),
    {
        if chain.len() == 0 {
            None
        } else if self.primary(chain[0], iid) is Some {
            self.primary(chain[0], iid)
        } else if self.in_status(chain[0], iid, RevisionStatus::Tombstone) is Some {
            self.in_status(chain[0], iid, RevisionStatus::Tombstone)
        } else {
            self.primary_in_chain(chain.drop_first(), iid)
        }
    }

    /// The tombstone of a symbol on the nearest branch of a chain that has one.
    pub open spec fn tombstone_in_chain(self, chain: Seq<BranchId>, iid: IdentityId) -> Option<
        RevisionView,
    >
        decreases chain.len(),
    {
        if chain.len() == 0 {
            None
        } else if self.in_status(chain[0], iid, RevisionStatus::Tombstone) is Some {
            self.in_status(chain[0], iid, RevisionStatus::Tombstone)
        } else {
            self.tombstone_in_chain(chain.drop_first(), iid)
        }
    }

    /// Some edge of a revision targets the symbol.
    pub open spec fn targets(self, rid: NodeRevisionId, iid: IdentityId) -> bool {
        exists|k: int|
            0 <= k < self.out(rid).len() && (#[trigger] self.out(rid)[k]).target_identity_id == iid
    }

    /// The symbols with a revision among the first `n` whose edges target the symbol, each once,
    /// in the order in which they are met.
    pub open spec fn sources_among(self, n: nat, iid: IdentityId) -> Seq<IdentityId>
        decreases n,
    {
        if n == 0 {
            Seq::empty()
        } else {
            let front = self.sources_among((n - 1) as nat, iid);
            let r = self.revisions[n - 1];
            if self.targets(r.revision_id, iid) && !front.contains(r.identity_id) {
                front.push(r.identity_id)
            } else {
                front
            }
        }
    }

    /// The symbols whose edges target the symbol.
    pub open spec fn sources_targeting(self, iid: IdentityId) -> Seq<IdentityId> {
        self.sources_among(self.revisions.len(), iid)
    }
}

/// Symbols, by their ids.
pub open spec fn identity_rows(ids: Seq<NodeIdentity>) -> Seq<(IdentityId, NodeKind)> {
    ids.map_values(|i: NodeIdentity| (i.identity_id, i.kind))
}

/// Edges, by the revisions that they leave.
pub open spec fn edge_rows(lists: Seq<(NodeRevisionId, Vec<GraphEdge>)>) -> Seq<
    (NodeRevisionId, Seq<GraphEdge>),
> {
    lists.map_values(|e: (NodeRevisionId, Vec<GraphEdge>)| (e.0, e.1@))
}

/// The ids of hubs, by their files.
pub open spec fn hub_rows(hubs: Seq<(FilePlace, NodeRevisionId)>) -> Seq<
    ((BranchId, Seq<char>), NodeRevisionId),
> {
    hubs.map_values(|h: (FilePlace, NodeRevisionId)| ((h.0.branch, h.0.path@), h.1))
}

/// A graph held in memory.
pub struct InMemoryGraph {
    revisions: Vec<NodeRevision>,
    kinds: Table<IdentityId, NodeKind>,
    edges: Table<NodeRevisionId, Vec<GraphEdge>>,
    hub_ids: Table<FilePlace, NodeRevisionId>,
}

impl View for InMemoryGraph {
    type V = GraphView;

    closed spec fn view(&self) -> GraphView {
        GraphView {
            revisions: revision_views(self.revisions@),
            kinds: self.kinds@,
            edges: self.edges@.map_values(|v: Vec<GraphEdge>| v@),
            hub_ids: self.hub_ids@,
        }
    }
}

/// What an in-place replacement does to a list.
pub proof fn lemma_put_into(revs: Seq<RevisionView>, r: RevisionView, i: int)
    requires
        0 <= i <= revs.len(),
        forall|j: int| 0 <= j < i ==> (#[trigger] revs[j]).revision_id != r.revision_id,
        i < revs.len() ==> revs[i].revision_id == r.revision_id,
    ensures
        put_into(revs, r) == (if i < revs.len() {
            revs.update(i, r)
        } else {
            revs.push(r)
        }),
    decreases revs.len(),
{
    if revs.len() == 0 {
        assert(put_into(revs, r) =~= revs.push(r));
    } else if i == 0 {
        assert(put_into(revs, r) =~= revs.update(0, r));
    } else {
        assert(revs[0].revision_id != r.revision_id);
        let rest = revs.drop_first();
        assert forall|j: int| 0 <= j < i - 1 implies (#[trigger] rest[j]).revision_id
            != r.revision_id by {
            assert(rest[j] == revs[j + 1]);
        }
        lemma_put_into(rest, r, i - 1);
        if i < revs.len() {
            assert(put_into(revs, r) =~= revs.update(i, r));
        } else {
            assert(put_into(revs, r) =~= revs.push(r));
        }
    }
}

impl InMemoryGraph {
    /// An empty graph.
    pub fn new() -> (r: Self)
        ensures
            r@.revisions == Seq::<RevisionView>::empty(),
            r@.kinds == Map::<IdentityId, NodeKind>::empty(),
            r@.edges == Map::<NodeRevisionId, Seq<GraphEdge>>::empty(),
            r@.hub_ids == Map::<(BranchId, Seq<char>), NodeRevisionId>::empty(),
    {
        let r = InMemoryGraph {
            revisions: Vec::new(),
            kinds: Table::new(),
            edges: Table::new(),
            hub_ids: Table::new(),
        };
        proof {
            assert(r@.revisions =~= Seq::<RevisionView>::empty());
            assert(r@.edges =~= Map::<NodeRevisionId, Seq<GraphEdge>>::empty());
        }
        r
    }

    /// Records what a symbol is.
    pub fn put_identity(&mut self, id: NodeIdentity)
        ensures
            final(self)@ == (GraphView {
                kinds: old(self)@.kinds.insert(id.identity_id, id.kind),
                ..old(self)@
            }),
    {
        self.kinds.insert(id.identity_id, id.kind);
    }

    /// Records the id that is derived for the hub of a file on a branch. How an id is derived is for
    /// the one who puts the hub.
    pub fn record_hub_id(&mut self, branch: BranchId, path: &str, rid: NodeRevisionId)
        ensures
            final(self)@ == (GraphView {
                hub_ids: old(self)@.hub_ids.insert((branch, path@), rid),
                ..old(self)@
            }),
    {
        self.hub_ids.insert(FilePlace { branch, path: owned(path) }, rid);
    }

    /// The id that is derived for the hub of a file on a branch.
    pub fn hub_id(&self, branch: BranchId, path: &str) -> (r: Option<NodeRevisionId>)
        ensures
            r == self@.hub_id(branch, path@),
    {
        match self.hub_ids.get(&FilePlace { branch, path: owned(path) }) {
            Some(rid) => Some(*rid),
            None => None,
        }
    }

    /// The position of the first revision of this id, or the number of revisions.
    fn position(&self, rid: NodeRevisionId) -> (i: usize)
        ensures
            i <= self@.revisions.len(),
            i <= self.revisions.len(),
            self@.revisions.len() == self.revisions.len(),
            forall|j: int| 0 <= j < i ==> (#[trigger] self@.revisions[j]).revision_id != rid,
            i < self@.revisions.len() ==> self@.revisions[i as int].revision_id == rid,
            i < self@.revisions.len() ==> self@.revisions[i as int] == self.revisions[i as int]@,
    {
        let mut i: usize = 0;
        while i < self.revisions.len()
            invariant
                i <= self.revisions.len(),
                forall|j: int| 0 <= j < i ==> (#[trigger] self@.revisions[j]).revision_id != rid,
            decreases self.revisions.len() - i,
        {
            if self.revisions[i].revision_id == rid {
                return i;
            }
            i = i + 1;
        }
        i
    }

    /// Puts a revision: in place of the one of its id, or last.
    pub fn put_revision(&mut self, rev: NodeRevision)
        ensures
            final(self)@ == old(self)@.put(rev@),
    {
        let ghost before = self@;
        let ghost rv = rev@;
        let i = self.position(rev.revision_id);
        proof {
            lemma_put_into(before.revisions, rv, i as int);
        }
        if i < self.revisions.len() {
            self.revisions[i] = rev;
            assert(self@.revisions =~= before.revisions.update(i as int, rv));
        } else {
            self.revisions.push(rev);
            assert(self@.revisions =~= before.revisions.push(rv));
        }
    }

    /// The revision of this id.
    pub fn get_revision(&self, rid: NodeRevisionId) -> (r: Option<&NodeRevision>)
        ensures
            match r {
                Some(v) => self@.rev(rid) == Some(v@),
                None => self@.rev(rid) is None,
            },
    {
        let i = self.position(rid);
        let ghost p = |r: RevisionView| r.revision_id == rid;
        if i < self.revisions.len() {
            proof {
                seqs::lemma_first_found(self@.revisions, p, i as int);
            }
            Some(&self.revisions[i])
        } else {
            proof {
                seqs::lemma_first_none(self@.revisions, p);
            }
            None
        }
    }

    /// Every revision, in the order in which they were first put.
    pub fn revisions(&self) -> (r: &Vec<NodeRevision>)
        ensures
            revision_views(r@) == self@.revisions,
    {
        &self.revisions
    }

    /// The number of revisions.
    pub fn revision_count(&self) -> (n: usize)
        ensures
            n == self@.revisions.len(),
    {
        self.revisions.len()
    }

    /// The number of symbols.
    pub fn identity_count(&self) -> (n: usize)
        ensures
            n == self@.kinds.dom().len(),
    {
        self.kinds.len()
    }

    /// Every symbol.
    pub fn identities(&self) -> (r: Vec<NodeIdentity>)
        ensures
            table::map_of(identity_rows(r@)) == self@.kinds,
    {
        let ghost rows = self.kinds.rows();
        let n = self.kinds.len();
        let mut out: Vec<NodeIdentity> = Vec::new();
        let mut i: usize = 0;
        while i < n
            invariant
                i <= n,
                n == self.kinds.rows().len(),
                rows == self.kinds.rows(),
                out.len() == i,
                forall|k: int|
                    0 <= k < i ==> rows[k] == ((#[trigger] out@[k]).identity_id, out@[k].kind),
            decreases n - i,
        {
            out.push(NodeIdentity { identity_id: *self.kinds.key_at(i), kind: *self.kinds.value_at(i) });
            i = i + 1;
        }
        assert(identity_rows(out@) =~= rows);
        out
    }

    /// The edges of every revision that has some.
    pub fn edge_lists(&self) -> (r: Vec<(NodeRevisionId, Vec<GraphEdge>)>)
        ensures
            table::map_of(edge_rows(r@)) == self@.edges,
    {
        let ghost rows = self.edges.rows();
        let n = self.edges.len();
        let mut out: Vec<(NodeRevisionId, Vec<GraphEdge>)> = Vec::new();
        let mut i: usize = 0;
        while i < n
            invariant
                i <= n,
                n == self.edges.rows().len(),
                rows == self.edges.rows(),
                out.len() == i,
                forall|k: int|
                    0 <= k < i ==> (#[trigger] out@[k]).0 == rows[k].0 && out@[k].1@ == rows[k].1@,
            decreases n - i,
        {
            out.push((*self.edges.key_at(i), copy_edges(self.edges.value_at(i))));
            i = i + 1;
        }
        proof {
            let held = |v: Vec<GraphEdge>| v@;
            table::lemma_map_of_values(rows, held);
            assert(edge_rows(out@) =~= rows.map_values(
                |e: (NodeRevisionId, Vec<GraphEdge>)| (e.0, held(e.1)),
            ));
            assert(table::map_of(rows).map_values(held) =~= self@.edges);
        }
        out
    }

    /// The ids that are derived for the hubs of files.
    pub fn hubs(&self) -> (r: Vec<(FilePlace, NodeRevisionId)>)
        ensures
            table::map_of(hub_rows(r@)) == self@.hub_ids,
    {
        let ghost rows = self.hub_ids.rows();
        let n = self.hub_ids.len();
        let mut out: Vec<(FilePlace, NodeRevisionId)> = Vec::new();
        let mut i: usize = 0;
        while i < n
            invariant
                i <= n,
                n == self.hub_ids.rows().len(),
                rows == self.hub_ids.rows(),
                out.len() == i,
                forall|k: int|
                    0 <= k < i ==> rows[k] == ((#[trigger] out@[k]).0.name(), out@[k].1),
            decreases n - i,
        {
            out.push((self.hub_ids.key_at(i).duplicate(), *self.hub_ids.value_at(i)));
            i = i + 1;
        }
        assert(hub_rows(out@) =~= rows);
        out
    }

    /// What a symbol is.
    pub fn identity_kind(&self, iid: IdentityId) -> (r: Option<NodeKind>)
        ensures
            r == self@.kind(iid),
    {
        match self.kinds.get(&iid) {
            Some(k) => Some(*k),
            None => None,
        }
    }

    /// The edges that leave a revision.
    pub fn outbound_edges(&self, rid: NodeRevisionId) -> (r: Vec<GraphEdge>)
        ensures
            r@ == self@.out(rid),
    {
        match self.edges.get(&rid) {
            Some(v) => copy_edges(v),
            None => Vec::new(),
        }
    }

    /// Replaces the edges of a revision that is in the graph.
    pub fn replace_edges_for_revision(&mut self, rid: NodeRevisionId, edges: Vec<GraphEdge>) -> (r:
        Result<(), &'static str>)
        ensures
            r is Ok <==> old(self)@.rev(rid) is Some,
            r is Ok ==> final(self)@ == old(self)@.with_edges(rid, edges@),
            r is Err ==> final(self)@ == old(self)@,
    {
        if self.get_revision(rid).is_none() {
            return Err("unknown revision");
        }
        let ghost before = self.edges@;
        let ghost es = edges;
        self.edges.insert(rid, edges);
        proof {
            assert(self.edges@.map_values(|v: Vec<GraphEdge>| v@) =~= before.map_values(
                |v: Vec<GraphEdge>| v@,
            ).insert(rid, es@));
        }
        Ok(())
    }

    /// Changes the status of a revision.
    pub fn set_revision_status(&mut self, rid: NodeRevisionId, status: RevisionStatus)
        ensures
            final(self)@ == old(self)@.with_status(rid, status),
    {
        let found: Option<NodeRevision> = match self.get_revision(rid) {
            Some(r) => Some(r.copied()),
            None => None,
        };
        if let Some(mut r) = found {
            r.status = status;
            self.put_revision(r);
        }
    }

    /// Takes a revision and its edges out.
    pub fn remove_revision(&mut self, rid: NodeRevisionId)
        ensures
            final(self)@ == old(self)@.without(rid),
    {
        let ghost before = self@;
        let ghost keep = |r: RevisionView| r.revision_id != rid;
        let mut kept: Vec<NodeRevision> = Vec::new();
        let mut i: usize = 0;
        proof {
            seqs::lemma_filter_ends(before.revisions, keep);
            assert(revision_views(kept@) =~= Seq::<RevisionView>::empty());
        }
        while i < self.revisions.len()
            invariant
                i <= self.revisions.len(),
                self@ == before,
                before.revisions == revision_views(self.revisions@),
                keep == |r: RevisionView| r.revision_id != rid,
                revision_views(kept@) == before.revisions.take(i as int).filter(keep),
            decreases self.revisions.len() - i,
        {
            proof {
                seqs::lemma_filter_step(before.revisions, keep, i as int);
            }
            if self.revisions[i].revision_id != rid {
                let ghost k0 = kept@;
                kept.push(self.revisions[i].copied());
                assert(revision_views(kept@) =~= revision_views(k0).push(
                    before.revisions[i as int],
                ));
            }
            i = i + 1;
        }
        proof {
            seqs::lemma_filter_ends(before.revisions, keep);
        }
        let ghost edges0 = self.edges@;
        self.revisions = kept;
        self.edges.remove(&rid);
        proof {
            assert(self.edges@.map_values(|v: Vec<GraphEdge>| v@) =~= edges0.map_values(
                |v: Vec<GraphEdge>| v@,
            ).remove(rid));
        }
    }

    /// The symbol that a renamed revision lives on as.
    pub fn rename_successor(&self, rid: NodeRevisionId) -> (r: Option<IdentityId>)
        ensures
            r == self@.rename_successor(rid),
    {
        let edges = self.outbound_edges(rid);
        let ghost p = |e: GraphEdge| e.ty == EdgeType::RenamedFrom;
        let mut i: usize = 0;
        while i < edges.len()
            invariant
                i <= edges.len(),
                edges@ == self@.out(rid),
                p == |e: GraphEdge| e.ty == EdgeType::RenamedFrom,
                forall|j: int| 0 <= j < i ==> !p(#[trigger] edges@[j]),
            decreases edges.len() - i,
        {
            if edges[i].ty == EdgeType::RenamedFrom {
                proof {
                    seqs::lemma_first_found(edges@, p, i as int);
                }
                return Some(edges[i].target_identity_id);
            }
            i = i + 1;
        }
        proof {
            seqs::lemma_first_none(edges@, p);
        }
        None
    }

    /// The first revision of a symbol on a branch in a given status.
    pub fn revision_in_status(
        &self,
        branch: BranchId,
        iid: IdentityId,
        status: RevisionStatus,
    ) -> (r: Option<&NodeRevision>)
        ensures
            match r {
                Some(v) => self@.in_status(branch, iid, status) == Some(v@),
                None => self@.in_status(branch, iid, status) is None,
            },
    {
        let ghost p = |r: RevisionView|
            r.branch_id == branch && r.identity_id == iid && r.status == status;
        let mut i: usize = 0;
        while i < self.revisions.len()
            invariant
                i <= self.revisions.len(),
                p == (|r: RevisionView|
                    r.branch_id == branch && r.identity_id == iid && r.status == status),
                forall|j: int| 0 <= j < i ==> !p(#[trigger] self@.revisions[j]),
            decreases self.revisions.len() - i,
        {
            let r = &self.revisions[i];
            if r.branch_id == branch && r.identity_id == iid && r.status == status {
                proof {
                    assert(self@.revisions[i as int] == r@);
                    seqs::lemma_first_found(self@.revisions, p, i as int);
                }
                return Some(r);
            }
            i = i + 1;
        }
        proof {
            seqs::lemma_first_none(self@.revisions, p);
        }
        None
    }

    /// The first tombstone of a symbol on a branch that names a successor.
    fn bridging_tombstone(&self, branch: BranchId, iid: IdentityId) -> (r: Option<&NodeRevision>)
        ensures
            match r {
                Some(v) => self@.bridge(branch, iid) == Some(v@),
                None => self@.bridge(branch, iid) is None,
            },
    {
        let ghost p = |r: RevisionView|
            r.branch_id == branch && r.identity_id == iid && r.status == RevisionStatus::Tombstone
                && self@.rename_successor(r.revision_id) is Some;
        let mut i: usize = 0;
        while i < self.revisions.len()
            invariant
                i <= self.revisions.len(),
                p == (|r: RevisionView|
                    r.branch_id == branch && r.identity_id == iid && r.status
                        == RevisionStatus::Tombstone && self@.rename_successor(
                        r.revision_id,
                    ) is Some),
                forall|j: int| 0 <= j < i ==> !p(#[trigger] self@.revisions[j]),
            decreases self.revisions.len() - i,
        {
            let r = &self.revisions[i];
            if r.branch_id == branch && r.identity_id == iid && r.status
                == RevisionStatus::Tombstone && self.rename_successor(r.revision_id).is_some() {
                proof {
                    assert(self@.revisions[i as int] == r@);
                    seqs::lemma_first_found(self@.revisions, p, i as int);
                }
                return Some(r);
            }
            i = i + 1;
        }
        proof {
            seqs::lemma_first_none(self@.revisions, p);
        }
        None
    }

    /// The revision that stands for a symbol on a branch.
    pub fn primary_revision_for_identity(&self, branch: BranchId, iid: IdentityId) -> (r: Option<
        &NodeRevision,
    >)
        ensures
            match r {
                Some(v) => self@.primary(branch, iid) == Some(v@),
                None => self@.primary(branch, iid) is None,
            },
    {
        if let Some(r) = self.revision_in_status(branch, iid, RevisionStatus::Active) {
            return Some(r);
        }
        if let Some(r) = self.revision_in_status(branch, iid, RevisionStatus::Speculative) {
            return Some(r);
        }
        self.bridging_tombstone(branch, iid)
    }

    /// The revision that stands for a symbol on the nearest branch of a chain that has one; a plain
    /// tombstone stands for a symbol that its branch has deleted.
    pub fn primary_revision_for_identity_in_chain(
        &self,
        chain: &Vec<BranchId>,
        iid: IdentityId,
    ) -> (r: Option<&NodeRevision>)
        ensures
            match r {
                Some(v) => self@.primary_in_chain(chain@, iid) == Some(v@),
                None => self@.primary_in_chain(chain@, iid) is None,
            },
    {
        let mut i: usize = 0;
        assert(chain@.skip(0) =~= chain@);
        while i < chain.len()
            invariant
                i <= chain.len(),
                self@.primary_in_chain(chain@, iid) == self@.primary_in_chain(
                    chain@.skip(i as int),
                    iid,
                ),
            decreases chain.len() - i,
        {
            assert(chain@.skip(i as int).drop_first() =~= chain@.skip(i + 1));
            if let Some(r) = self.primary_revision_for_identity(chain[i], iid) {
                return Some(r);
            }
            if let Some(r) = self.revision_in_status(chain[i], iid, RevisionStatus::Tombstone) {
                return Some(r);
            }
            i = i + 1;
        }
        None
    }

    /// The tombstone of a symbol on a branch.
    pub fn tombstone_revision_for_identity(&self, branch: BranchId, iid: IdentityId) -> (r: Option<
        &NodeRevision,
    >)
        ensures
            match r {
                Some(v) => self@.in_status(branch, iid, RevisionStatus::Tombstone) == Some(v@),
                None => self@.in_status(branch, iid, RevisionStatus::Tombstone) is None,
            },
    {
        self.revision_in_status(branch, iid, RevisionStatus::Tombstone)
    }

    /// The tombstone of a symbol on the nearest branch of a chain that has one.
    pub fn tombstone_revision_for_identity_in_chain(
        &self,
        chain: &Vec<BranchId>,
        iid: IdentityId,
    ) -> (r: Option<&NodeRevision>)
        ensures
            match r {
                Some(v) => self@.tombstone_in_chain(chain@, iid) == Some(v@),
                None => self@.tombstone_in_chain(chain@, iid) is None,
            },
    {
        let mut i: usize = 0;
        assert(chain@.skip(0) =~= chain@);
        while i < chain.len()
            invariant
                i <= chain.len(),
                self@.tombstone_in_chain(chain@, iid) == self@.tombstone_in_chain(
                    chain@.skip(i as int),
                    iid,
                ),
            decreases chain.len() - i,
        {
            assert(chain@.skip(i as int).drop_first() =~= chain@.skip(i + 1));
            if let Some(r) = self.tombstone_revision_for_identity(chain[i], iid) {
                return Some(r);
            }
            i = i + 1;
        }
        None
    }

    /// Whether some edge of a revision targets a symbol.
    pub fn revision_targets(&self, rid: NodeRevisionId, iid: IdentityId) -> (r: bool)
        ensures
            r == self@.targets(rid, iid),
    {
        let edges = self.outbound_edges(rid);
        let mut i: usize = 0;
        while i < edges.len()
            invariant
                i <= edges.len(),
                edges@ == self@.out(rid),
                forall|j: int| 0 <= j < i ==> (#[trigger] edges@[j]).target_identity_id != iid,
            decreases edges.len() - i,
        {
            if edges[i].target_identity_id == iid {
                assert(self@.out(rid)[i as int].target_identity_id == iid);
                return true;
            }
            i = i + 1;
        }
        false
    }

    /// The symbols whose edges target a symbol.
    pub fn source_identities_targeting(&self, iid: IdentityId) -> (r: Vec<IdentityId>)
        ensures
            r@ == self@.sources_targeting(iid),
    {
        let mut out: Vec<IdentityId> = Vec::new();
        let mut i: usize = 0;
        while i < self.revisions.len()
            invariant
                i <= self.revisions.len(),
                out@ == self@.sources_among(i as nat, iid),
            decreases self.revisions.len() - i,
        {
            let r = &self.revisions[i];
            assert(self@.revisions[i as int] == r@);
            if self.revision_targets(r.revision_id, iid) && !contains_identity(
                &out,
                r.identity_id,
            ) {
                out.push(r.identity_id);
            }
            i = i + 1;
        }
        out
    }
}

/// Whether a symbol is in a list.
pub fn contains_identity(v: &Vec<IdentityId>, iid: IdentityId) -> (r: bool)
    ensures
        r == v@.contains(iid),
{
    let mut i: usize = 0;
    while i < v.len()
        invariant
            i <= v.len(),
            forall|j: int| 0 <= j < i ==> v@[j] != iid,
        decreases v.len() - i,
    {
        if v[i] == iid {
            assert(v@[i as int] == iid);
            return true;
        }
        i = i + 1;
    }
    false
}

/// Whether a branch is in a chain.
pub fn contains_branch(v: &Vec<BranchId>, b: BranchId) -> (r: bool)
    ensures
        r == v@.contains(b),
{
    let mut i: usize = 0;
    while i < v.len()
        invariant
            i <= v.len(),
            forall|j: int| 0 <= j < i ==> v@[j] != b,
        decreases v.len() - i,
    {
        if v[i] == b {
            assert(v@[i as int] == b);
            return true;
        }
        i = i + 1;
    }
    false
}

/// Whether a revision is in a list.
pub fn contains_revision(v: &Vec<NodeRevisionId>, rid: NodeRevisionId) -> (r: bool)
    ensures
        r == v@.contains(rid),
{
    let mut i: usize = 0;
    while i < v.len()
        invariant
            i <= v.len(),
            forall|j: int| 0 <= j < i ==> v@[j] != rid,
        decreases v.len() - i,
    {
        if v[i] == rid {
            assert(v@[i as int] == rid);
            return true;
        }
        i = i + 1;
    }
    false
}

/// A revision that was put is the one found under its id, and every other id finds what it found.
pub proof fn law_put_then_get(g: GraphView, r: RevisionView, other: NodeRevisionId)
    ensures
        g.put(r).rev(r.revision_id) == Some(r),
        other != r.revision_id ==> g.put(r).rev(other) == g.rev(other),
    decreases g.revisions.len(),
{
    let revs = g.revisions;
    let after = put_into(revs, r);
    let p = |x: RevisionView| x.revision_id == other;
    if revs.len() == 0 {
        assert(after.drop_first() =~= Seq::<RevisionView>::empty());
        assert(seqs::first_such(after.drop_first(), p) is None);
    } else if revs[0].revision_id == r.revision_id {
        assert(after.drop_first() =~= revs.drop_first());
    } else {
        let rest = GraphView { revisions: revs.drop_first(), ..g };
        law_put_then_get(rest, r, other);
        assert(after.drop_first() =~= put_into(revs.drop_first(), r));
        assert(after[0] == revs[0]);
    }
}

} // verus!
