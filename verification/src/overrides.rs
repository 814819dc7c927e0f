//! Edges whose target a branch has set anew.

use crate::graph::GraphEdge;
use crate::hex;
use crate::hex::{array16, hex16, parse_hex16};
use crate::ids;
use crate::ids::{BranchId, IdentityId, NodeRevisionId, bytes16};
use crate::keys;
use crate::keys::tagged_rest_key;
use crate::kv;
use crate::kv::MemoryKv;
use crate::text;
use crate::text::{chars_of, chars_split, same_bytes, same_text, text_of};
use vstd::prelude::*;

verus! {

/// `eto:{branch}:{source}:{edge}`.
pub open spec fn override_key(branch: BranchId, source: NodeRevisionId, edge: [u8; 16]) -> Seq<
    char,
> {
    keys::tagged_rest("eto:"@, branch.0@, keys::tagged_rest(Seq::empty(), source.0@, hex::hex_of(edge@)))
}

/// Builds `eto:{branch}:{source}:{edge}`.
pub fn eto_key(branch: BranchId, source: NodeRevisionId, edge_id: &[u8; 16]) -> (r: String)
    ensures
        r@ == override_key(branch, source, *edge_id),
{
    proof {
        reveal_strlit("");
        assert(""@ =~= Seq::<char>::empty());
    }
    let rest = tagged_rest_key("", &source.0, hex16(edge_id).as_str());
    tagged_rest_key("eto:", &branch.0, rest.as_str())
}

/// The target that a branch has set for an edge.
pub open spec fn override_at(
    m: Map<Seq<char>, Seq<u8>>,
    branch: BranchId,
    source: NodeRevisionId,
    edge: [u8; 16],
) -> Option<IdentityId> {
    match kv::value_at(m, override_key(branch, source, edge)) {
        Some(v) => if v.len() == 16 {
            Some(IdentityId(ids::array_of(v)))
        } else {
            None
        },
        None => None,
    }
}

/// The target of an edge on a chain of branches: the nearest branch that has set one decides.
pub open spec fn effective_target(
    m: Map<Seq<char>, Seq<u8>>,
    chain: Seq<BranchId>,
    e: GraphEdge,
) -> IdentityId
    decreases chain.len(),
{
    if chain.len() == 0 {
        e.target_identity_id
    } else {
        match override_at(m, chain[0], e.source_revision_id, e.edge_id) {
            Some(t) => t,
            None => effective_target(m, chain.skip(1), e),
        }
    }
}

/// The branch, the source and the edge that a key names.
pub open spec fn override_of(key: Seq<char>) -> Option<(BranchId, NodeRevisionId, [u8; 16])> {
    let p = text::pieces(key, ':');
    if p.len() == 4 && p[0] == "eto"@ {
        match (hex::bytes_of_hex(p[1], 16), hex::bytes_of_hex(p[2], 16), hex::bytes_of_hex(p[3], 16)) {
            (Some(b), Some(s), Some(e)) => Some(
                (BranchId(ids::array_of(b)), NodeRevisionId(ids::array_of(s)), ids::array_of(e)),
            ),
            _ => None,
        }
    } else {
        None
    }
}

/// Keys are read as they were built.
pub proof fn lemma_override_key(branch: BranchId, source: NodeRevisionId, edge: [u8; 16])
    ensures
        override_of(override_key(branch, source, edge)) == Some((branch, source, edge)),
        text::begins_with(override_key(branch, source, edge), "eto:"@),
{
    let key = override_key(branch, source, edge);
    let (a, b, c) = (hex::hex_of(branch.0@), hex::hex_of(source.0@), hex::hex_of(edge@));
    reveal_strlit("eto");
    reveal_strlit("eto:");
    let r2 = b + seq![':'] + c;
    let r1 = a + seq![':'] + r2;
    assert(key =~= "eto"@ + seq![':'] + r1);
    hex::lemma_hex_has_no_colon(branch.0@);
    hex::lemma_hex_has_no_colon(source.0@);
    hex::lemma_hex_has_no_colon(edge@);
    text::lemma_pieces_of_joined("eto"@, ':', r1);
    text::lemma_pieces_of_joined(a, ':', r2);
    text::lemma_pieces_of_joined(b, ':', c);
    text::lemma_pieces_of_whole(c, ':');
    assert(text::pieces(key, ':') =~= seq!["eto"@, a, b, c]);
    hex::lemma_hex_reads_back(branch.0@);
    hex::lemma_hex_reads_back(source.0@);
    hex::lemma_hex_reads_back(edge@);
    ids::lemma_array_of(branch.0);
    ids::lemma_array_of(source.0);
    ids::lemma_array_of(edge);
    assert(key.subrange(0, 4) =~= "eto:"@);
}

/// Reads the branch, the source and the edge that a key names.
fn parse_override_key(key: &str) -> (r: Option<(BranchId, NodeRevisionId, [u8; 16])>)
    ensures
        r == override_of(key@),
{
    let p = chars_split(&chars_of(key), ':');
    let ghost pv = text::pieces(key@, ':');
    assert(pv.len() == p.len());
    if p.len() != 4 {
        return None;
    }
    assert(pv[0] == p[0]@ && pv[1] == p[1]@ && pv[2] == p[2]@ && pv[3] == p[3]@);
    if !same_text(text_of(&p[0]).as_str(), "eto") {
        return None;
    }
    match (
        parse_hex16(text_of(&p[1]).as_str()),
        parse_hex16(text_of(&p[2]).as_str()),
        parse_hex16(text_of(&p[3]).as_str()),
    ) {
        (Some(b), Some(s), Some(e)) => {
            proof {
                ids::lemma_array_of(b);
                ids::lemma_array_of(s);
                ids::lemma_array_of(e);
            }
            Some((BranchId(b), NodeRevisionId(s), e))
        },
        _ => None,
    }
}

/// `k` sets a target for an edge of `source`.
pub open spec fn overrides_source(k: Seq<char>, source: NodeRevisionId) -> bool {
    text::begins_with(k, "eto:"@) && (override_of(k) matches Some(x) && x.1 == source)
}

/// Forgets every target that is set for an edge of a revision.
pub fn delete_eto_for_source_revision(kv: &mut MemoryKv, source: NodeRevisionId)
    ensures
        final(kv)@ == old(kv)@.remove_keys(
            Set::new(|k: Seq<char>| overrides_source(k, source)),
        ),
{
    let rows = kv.scan_prefix("eto:");
    let ghost m0 = kv@;
    let mut i: usize = 0;
    while i < rows.len()
        invariant
            i <= rows.len(),
            kv::scanned(m0, "eto:"@, rows@),
            forall|k: Seq<char>| #[trigger]
                kv@.contains_key(k) ==> m0.contains_pair(k, kv@[k]),
            forall|k: Seq<char>| #[trigger]
                m0.contains_key(k) && !kv@.contains_key(k) ==> overrides_source(k, source),
            forall|j: int|
                0 <= j < i && overrides_source((#[trigger] rows@[j]).0@, source)
                    ==> !kv@.contains_key(rows@[j].0@),
        decreases rows.len() - i,
    {
        if let Some((_, s, _)) = parse_override_key(rows[i].0.as_str()) {
            if s == source {
                kv.delete(rows[i].0.as_str());
            }
        }
        i = i + 1;
    }
    proof {
        let want = m0.remove_keys(Set::new(|k: Seq<char>| overrides_source(k, source)));
        assert forall|k: Seq<char>| kv@.contains_key(k) <==> want.contains_key(k) by {
            if m0.contains_key(k) && overrides_source(k, source) {
                let j = choose|j: int| 0 <= j < rows@.len() && (#[trigger] rows@[j]).0@ == k;
                assert(overrides_source(rows@[j].0@, source));
            }
        }
        assert(kv@ =~= want);
    }
}

/// The edges whose target rows set to an identity, with the branch and the source.
pub open spec fn retargeted_in(rows: Seq<(String, Vec<u8>)>, target: IdentityId) -> Seq<
    (BranchId, NodeRevisionId, [u8; 16]),
>
    decreases rows.len(),
{
    if rows.len() == 0 {
        Seq::empty()
    } else {
        let front = retargeted_in(rows.drop_last(), target);
        match override_of(rows.last().0@) {
            Some(x) => if rows.last().1@ == target.0@ {
                front.push(x)
            } else {
                front
            },
            None => front,
        }
    }
}

/// `list` are the edges whose target is set to an identity, in some order.
pub open spec fn retargeted(
    m: Map<Seq<char>, Seq<u8>>,
    target: IdentityId,
    list: Seq<(BranchId, NodeRevisionId, [u8; 16])>,
) -> bool {
    exists|rows: Seq<(String, Vec<u8>)>| #[trigger]
        kv::scanned(m, "eto:"@, rows) && list == retargeted_in(rows, target)
}

/// Sets and reads targets of edges.
#[derive(Debug)]
pub struct EdgeTargetOverrideStore;

impl EdgeTargetOverrideStore {
    pub fn new() -> (r: Self)
        ensures
            r == EdgeTargetOverrideStore,
    {
        EdgeTargetOverrideStore
    }

    /// Sets the target of an edge on a branch.
    pub fn set_override(
        &self,
        kv: &mut MemoryKv,
        branch: BranchId,
        source: NodeRevisionId,
        edge_id: [u8; 16],
        target: IdentityId,
    )
        ensures
            final(kv)@ == old(kv)@.insert(override_key(branch, source, edge_id), target.0@),
            override_at(final(kv)@, branch, source, edge_id) == Some(target),
    {
        kv.set(eto_key(branch, source, &edge_id).as_str(), bytes16(&target.0));
        proof {
            ids::lemma_array_of(target.0);
        }
    }

    /// The target that a branch has set for an edge.
    fn read_override(
        &self,
        kv: &MemoryKv,
        branch: BranchId,
        source: NodeRevisionId,
        edge_id: &[u8; 16],
    ) -> (r: Option<IdentityId>)
        ensures
            r == override_at(kv@, branch, source, *edge_id),
    {
        match kv.get(eto_key(branch, source, edge_id).as_str()) {
            Some(v) => {
                if v.len() != 16 {
                    return None;
                }
                let a = array16(&v);
                proof {
                    ids::lemma_array_of(a);
                }
                Some(IdentityId(a))
            },
            None => None,
        }
    }

    /// The edges whose target is set to an identity, with the branch and the source.
    pub fn overrides_targeting(&self, kv: &MemoryKv, target: IdentityId) -> (r: Vec<
        (BranchId, NodeRevisionId, [u8; 16]),
    >)
        ensures
            retargeted(kv@, target, r@),
    {
        let rows = kv.scan_prefix("eto:");
        let want = bytes16(&target.0);
        let mut out: Vec<(BranchId, NodeRevisionId, [u8; 16])> = Vec::new();
        let mut i: usize = 0;
        proof {
            assert(rows@.take(0) =~= Seq::<(String, Vec<u8>)>::empty());
            assert(out@ =~= Seq::empty());
        }
        while i < rows.len()
            invariant
                i <= rows.len(),
                want@ == target.0@,
                out@ == retargeted_in(rows@.take(i as int), target),
            decreases rows.len() - i,
        {
            proof {
                assert(rows@.take(i + 1).drop_last() =~= rows@.take(i as int));
                assert(rows@.take(i + 1).last() == rows@[i as int]);
            }
            if let Some(x) = parse_override_key(rows[i].0.as_str()) {
                if same_bytes(&rows[i].1, &want) {
                    out.push(x);
                }
            }
            i = i + 1;
        }
        assert(rows@.take(rows@.len() as int) =~= rows@);
        out
    }

    /// The target of an edge on one branch.
    pub fn effective_target_identity(&self, kv: &MemoryKv, branch: BranchId, e: &GraphEdge) -> (r:
        IdentityId)
        ensures
            r == effective_target(kv@, seq![branch], *e),
    {
        proof {
            assert(seq![branch].skip(1) =~= Seq::<BranchId>::empty());
            assert(effective_target(kv@, Seq::<BranchId>::empty(), *e) == e.target_identity_id);
        }
        match self.read_override(kv, branch, e.source_revision_id, &e.edge_id) {
            Some(t) => t,
            None => e.target_identity_id,
        }
    }

    /// The target of an edge on a chain of branches.
    pub fn effective_target_identity_in_chain(
        &self,
        kv: &MemoryKv,
        chain: &Vec<BranchId>,
        e: &GraphEdge,
    ) -> (r: IdentityId)
        ensures
            r == effective_target(kv@, chain@, *e),
    {
        let mut i: usize = 0;
        assert(chain@.skip(0) =~= chain@);
        while i < chain.len()
            invariant
                i <= chain.len(),
                effective_target(kv@, chain@.skip(i as int), *e) == effective_target(
                    kv@,
                    chain@,
                    *e,
                ),
            decreases chain.len() - i,
        {
            assert(chain@.skip(i as int)[0] == chain@[i as int]);
            assert(chain@.skip(i as int).skip(1) =~= chain@.skip(i + 1));
            if let Some(t) = self.read_override(kv, chain[i], e.source_revision_id, &e.edge_id) {
                return t;
            }
            i = i + 1;
        }
        e.target_identity_id
    }
}

/// A target that is set is the edge's target for the branch and for every chain that begins with
/// it; it goes when the targets of its source are forgotten.
pub proof fn law_override_decides(
    m: Map<Seq<char>, Seq<u8>>,
    chain: Seq<BranchId>,
    e: GraphEdge,
    target: IdentityId,
)
    requires
        chain.len() > 0,
    ensures
        effective_target(
            m.insert(override_key(chain[0], e.source_revision_id, e.edge_id), target.0@),
            chain,
            e,
        ) == target,
        effective_target(
            m.remove_keys(
                Set::new(|k: Seq<char>| overrides_source(k, e.source_revision_id)),
            ),
            chain,
            e,
        ) == e.target_identity_id,
{
    ids::lemma_array_of(target.0);
    lemma_no_overrides_left(m, chain, e);
}

/// Without targets set for its source, an edge keeps its own.
proof fn lemma_no_overrides_left(m: Map<Seq<char>, Seq<u8>>, chain: Seq<BranchId>, e: GraphEdge)
    ensures
        effective_target(
            m.remove_keys(
                Set::new(|k: Seq<char>| overrides_source(k, e.source_revision_id)),
            ),
            chain,
            e,
        ) == e.target_identity_id,
    decreases chain.len(),
{
    if chain.len() > 0 {
        lemma_override_key(chain[0], e.source_revision_id, e.edge_id);
        lemma_no_overrides_left(m, chain.skip(1), e);
    }
}

} // verus!
