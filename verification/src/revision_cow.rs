//! Bindings in layers: a branch's own bindings over those of the branch it was made from.

use crate::bindings;
use crate::bindings::{binding_pairs, scan_branch_bindings};
use crate::codec;
use crate::codec::{pairs_from_json, pairs_to_json};
use crate::hex;
use crate::hex::padded_decimal;
use crate::ids::{BranchId, IdentityId, NodeRevisionId};
use crate::keys;
use crate::keys::{read_binding, revision_binding_kv_key, tagged_rest_key, write_binding};
use crate::kv;
use crate::kv::MemoryKv;
use crate::table;
use crate::table::Table;
use vstd::prelude::*;

verus! {

/// How deep layers may go before they are folded into one.
pub const COMPACT_MAX_DEPTH: usize = 10;

/// A branch's bindings over those of its parent.
pub struct RevisionIndexCow {
    branch_id: BranchId,
    local: Table<IdentityId, NodeRevisionId>,
    parent: Option<Box<RevisionIndexCow>>,
}

/// One branch's own bindings, as far as they are held in memory.
pub struct Layer {
    pub branch: BranchId,
    pub local: Map<IdentityId, NodeRevisionId>,
}

/// What an identity is bound to: on the first layer that binds it, in the store or in memory.
pub open spec fn cow_lookup(
    layers: Seq<Layer>,
    m: Map<Seq<char>, Seq<u8>>,
    i: IdentityId,
) -> Option<NodeRevisionId>
    decreases layers.len(),
{
    if layers.len() == 0 {
        None
    } else {
        match keys::bound(m, layers[0].branch, i) {
            Some(r) => Some(r),
            None => if layers[0].local.contains_key(i) {
                Some(layers[0].local[i])
            } else {
                cow_lookup(layers.skip(1), m, i)
            },
        }
    }
}

/// The layers once what the store binds an identity to is held in memory too.
pub open spec fn cow_cached(
    layers: Seq<Layer>,
    m: Map<Seq<char>, Seq<u8>>,
    i: IdentityId,
) -> Seq<Layer>
    decreases layers.len(),
{
    if layers.len() == 0 {
        layers
    } else {
        match keys::bound(m, layers[0].branch, i) {
            Some(r) => seq![
                Layer { branch: layers[0].branch, local: layers[0].local.insert(i, r) },
            ] + layers.skip(1),
            None => if layers[0].local.contains_key(i) {
                layers
            } else {
                seq![layers[0]] + cow_cached(layers.skip(1), m, i)
            },
        }
    }
}

/// The bindings of all layers in one, nearer layers over farther ones.
pub open spec fn folded(layers: Seq<Layer>) -> Map<IdentityId, NodeRevisionId>
    decreases layers.len(),
{
    if layers.len() == 0 {
        Map::empty()
    } else {
        folded(layers.skip(1)).union_prefer_right(layers[0].local)
    }
}

/// `ris:{branch}:{epoch}`, the epoch in twenty digits.
pub open spec fn snapshot_epoch_key(branch: BranchId, epoch: u64) -> Seq<char> {
    keys::tagged_rest("ris:"@, branch.0@, hex::zero_padded(hex::decimal(epoch as nat), 20))
}

/// Builds `ris:{branch}:{epoch}`.
pub fn ris_snapshot_kv_key(branch_id: BranchId, epoch: u64) -> (r: String)
    ensures
        r@ == snapshot_epoch_key(branch_id, epoch),
{
    tagged_rest_key("ris:", &branch_id.0, padded_decimal(epoch, 20).as_str())
}

/// The bytes of the ids of pairs.
pub open spec fn raw_pairs(pairs: Seq<(IdentityId, NodeRevisionId)>) -> Seq<([u8; 16], [u8; 16])> {
    pairs.map_values(|p: (IdentityId, NodeRevisionId)| (p.0.0, p.1.0))
}

/// The bindings that pairs of bytes stand for; of two for one identity the later counts.
pub open spec fn bindings_of_raw(pairs: Seq<([u8; 16], [u8; 16])>) -> Map<
    IdentityId,
    NodeRevisionId,
>
    decreases pairs.len(),
{
    if pairs.len() == 0 {
        Map::empty()
    } else {
        bindings_of_raw(pairs.drop_last()).insert(
            IdentityId(pairs.last().0),
            NodeRevisionId(pairs.last().1),
        )
    }
}

/// The pairs of a map, as bytes, stand for the map.
pub proof fn lemma_raw_pairs(
    b: Map<IdentityId, NodeRevisionId>,
    pairs: Seq<(IdentityId, NodeRevisionId)>,
)
    requires
        bindings::pairs_of(b, pairs),
    ensures
        bindings_of_raw(raw_pairs(pairs)) == b,
{
    lemma_raw_map(pairs);
}

/// Pairs, as bytes, stand for the map that they make.
proof fn lemma_raw_map(pairs: Seq<(IdentityId, NodeRevisionId)>)
    ensures
        bindings_of_raw(raw_pairs(pairs)) == table::map_of(pairs),
    decreases pairs.len(),
{
    if pairs.len() > 0 {
        lemma_raw_map(pairs.drop_last());
        assert(raw_pairs(pairs).drop_last() =~= raw_pairs(pairs.drop_last()));
        assert(raw_pairs(pairs).last() == (pairs.last().0.0, pairs.last().1.0));
        let a = IdentityId(pairs.last().0.0);
        assert(a == pairs.last().0);
        assert(NodeRevisionId(pairs.last().1.0) == pairs.last().1);
    }
}

impl RevisionIndexCow {
    /// The layers, the nearest first.
    pub closed spec fn layers(&self) -> Seq<Layer>
        decreases self,
    {
        let here = Layer { branch: self.branch_id, local: self.local@ };
        match self.parent {
            None => seq![here],
            Some(p) => seq![here] + p.layers(),
        }
    }

    /// There is always a layer.
    proof fn lemma_layers(&self)
        ensures
            self.layers().len() >= 1,
            self.layers()[0] == (Layer { branch: self.branch_id, local: self.local@ }),
            self.parent matches Some(p) ==> self.layers().skip(1) == p.layers(),
            self.parent is None ==> self.layers() == seq![
                Layer { branch: self.branch_id, local: self.local@ },
            ],
    {
        if let Some(p) = self.parent {
            assert(self.layers().skip(1) =~= p.layers());
        }
    }

    /// A branch without a parent, with nothing in memory.
    pub fn root(branch_id: BranchId) -> (r: Self)
        ensures
            r.layers() == seq![Layer { branch: branch_id, local: Map::empty() }],
    {
        let r = RevisionIndexCow { branch_id, local: Table::new(), parent: None };
        proof {
            r.lemma_layers();
        }
        r
    }

    /// A branch without a parent, with what the store binds on it in memory.
    pub fn root_hydrated(branch_id: BranchId, kv: &MemoryKv) -> (r: Self)
        ensures
            r.layers().len() == 1,
            r.layers()[0].branch == branch_id,
            bindings::branch_binds(kv@, branch_id, r.layers()[0].local),
    {
        let local = scan_branch_bindings(kv, branch_id);
        let r = RevisionIndexCow { branch_id, local, parent: None };
        proof {
            r.lemma_layers();
        }
        r
    }

    /// A branch over another.
    pub fn fork(parent: RevisionIndexCow, branch_id: BranchId) -> (r: Self)
        ensures
            r.layers() == seq![Layer { branch: branch_id, local: Map::empty() }] + parent.layers(),
    {
        let r = RevisionIndexCow {
            branch_id,
            local: Table::new(),
            parent: Some(Box::new(parent)),
        };
        proof {
            r.lemma_layers();
        }
        r
    }

    /// The branch.
    pub fn branch_id(&self) -> (r: BranchId)
        ensures
            self.layers().len() > 0,
            r == self.layers()[0].branch,
    {
        proof {
            self.lemma_layers();
        }
        self.branch_id
    }

    /// How many layers lie below; the count stops at `cap`.
    fn depth_up_to(&self, cap: usize) -> (d: usize)
        ensures
            d == (if self.layers().len() - 1 <= cap {
                self.layers().len() - 1
            } else {
                cap as int
            }),
        decreases self,
    {
        proof {
            self.lemma_layers();
        }
        match &self.parent {
            None => 0,
            Some(p) => {
                proof {
                    p.lemma_layers();
                }
                if cap == 0 {
                    0
                } else {
                    p.depth_up_to(cap - 1) + 1
                }
            },
        }
    }

    /// How many layers lie below.
    pub fn chain_depth(&self) -> (d: usize)
        requires
            self.layers().len() - 1 <= usize::MAX,
        ensures
            d == self.layers().len() - 1,
    {
        self.depth_up_to(usize::MAX)
    }

    /// Puts the bindings of all layers into one table.
    fn collect_bindings(&self, out: &mut Table<IdentityId, NodeRevisionId>)
        ensures
            final(out)@ == old(out)@.union_prefer_right(folded(self.layers())),
        decreases self,
    {
        proof {
            self.lemma_layers();
        }
        let ghost before = out@;
        match &self.parent {
            None => {
                assert(self.layers().skip(1) =~= Seq::<Layer>::empty());
                assert(out@ =~= before.union_prefer_right(folded(self.layers().skip(1))));
            },
            Some(p) => {
                p.collect_bindings(out);
            },
        }
        let ghost below = out@;
        let pairs = binding_pairs(&self.local);
        let mut i: usize = 0;
        assert(out@ =~= below.union_prefer_right(table::map_of(pairs@.take(0)))) by {
            assert(pairs@.take(0) =~= Seq::<(IdentityId, NodeRevisionId)>::empty());
        }
        while i < pairs.len()
            invariant
                i <= pairs.len(),
                out@ == below.union_prefer_right(table::map_of(pairs@.take(i as int))),
            decreases pairs.len() - i,
        {
            let (id, rev) = pairs[i];
            proof {
                assert(pairs@.take(i + 1).drop_last() =~= pairs@.take(i as int));
                assert(pairs@.take(i + 1).last() == (id, rev));
            }
            out.insert(id, rev);
            assert(out@ =~= below.union_prefer_right(table::map_of(pairs@.take(i + 1))));
            i = i + 1;
        }
        proof {
            assert(pairs@.take(pairs@.len() as int) =~= pairs@);
            assert(out@ =~= before.union_prefer_right(folded(self.layers())));
        }
    }

    /// The bindings of all layers, each identity once.
    pub fn resolved_bindings(&self) -> (r: Vec<(IdentityId, NodeRevisionId)>)
        ensures
            bindings::pairs_of(folded(self.layers()), r@),
    {
        let mut merged: Table<IdentityId, NodeRevisionId> = Table::new();
        self.collect_bindings(&mut merged);
        assert(merged@ =~= folded(self.layers()));
        binding_pairs(&merged)
    }

    /// What an identity is bound to; what the store says is kept in memory.
    pub fn lookup(&mut self, kv: &MemoryKv, identity_id: IdentityId) -> (r: Option<NodeRevisionId>)
        ensures
            r == cow_lookup(old(self).layers(), kv@, identity_id),
            final(self).layers() == cow_cached(old(self).layers(), kv@, identity_id),
        decreases *old(self),
    {
        let ghost before = self.layers();
        proof {
            self.lemma_layers();
        }
        if let Some(rid) = read_binding(kv, self.branch_id, identity_id) {
            self.local.insert(identity_id, rid);
            proof {
                self.lemma_layers();
                assert(self.layers() =~= cow_cached(before, kv@, identity_id));
            }
            return Some(rid);
        }
        if let Some(r) = self.local.get(&identity_id) {
            return Some(*r);
        }
        match self.parent.take() {
            None => {
                proof {
                    self.lemma_layers();
                    let none = Seq::<Layer>::empty();
                    assert(before.skip(1) =~= none);
                    assert(cow_lookup(none, kv@, identity_id) is None);
                    assert(cow_cached(none, kv@, identity_id) == none);
                    assert(self.layers() =~= cow_cached(before, kv@, identity_id));
                }
                None
            },
            Some(mut p) => {
                let r = p.lookup(kv, identity_id);
                self.parent = Some(p);
                proof {
                    self.lemma_layers();
                    assert(self.layers() =~= cow_cached(before, kv@, identity_id));
                }
                r
            },
        }
    }

    /// Binds an identity on this branch, in memory and in the store.
    pub fn bind(
        &mut self,
        kv: &mut MemoryKv,
        identity_id: IdentityId,
        revision_id: NodeRevisionId,
    )
        ensures
            final(self).layers() == old(self).layers().update(
                0,
                Layer {
                    branch: old(self).layers()[0].branch,
                    local: old(self).layers()[0].local.insert(identity_id, revision_id),
                },
            ),
            final(kv)@ == old(kv)@.insert(
                keys::binding_key(old(self).layers()[0].branch, identity_id),
                revision_id.0@,
            ),
            cow_lookup(final(self).layers(), final(kv)@, identity_id) == Some(revision_id),
    {
        let ghost before = self.layers();
        proof {
            self.lemma_layers();
        }
        self.local.insert(identity_id, revision_id);
        write_binding(kv, self.branch_id, identity_id, revision_id);
        proof {
            self.lemma_layers();
            assert(self.layers() =~= before.update(
                0,
                Layer {
                    branch: before[0].branch,
                    local: before[0].local.insert(identity_id, revision_id),
                },
            ));
        }
    }

    /// Unbinds an identity on this branch, in memory and in the store.
    pub fn unbind(&mut self, kv: &mut MemoryKv, identity_id: IdentityId)
        ensures
            final(self).layers() == old(self).layers().update(
                0,
                Layer {
                    branch: old(self).layers()[0].branch,
                    local: old(self).layers()[0].local.remove(identity_id),
                },
            ),
            final(kv)@ == old(kv)@.remove(
                keys::binding_key(old(self).layers()[0].branch, identity_id),
            ),
    {
        let ghost before = self.layers();
        proof {
            self.lemma_layers();
        }
        self.local.remove(&identity_id);
        kv.delete(revision_binding_kv_key(self.branch_id, identity_id).as_str());
        proof {
            self.lemma_layers();
            assert(self.layers() =~= before.update(
                0,
                Layer { branch: before[0].branch, local: before[0].local.remove(identity_id) },
            ));
        }
    }

    /// Folds the layers into one, if they go deeper than they may.
    pub fn compacted_if_deep(self) -> (r: Self)
        ensures
            r.layers() == (if self.layers().len() - 1 <= COMPACT_MAX_DEPTH {
                self.layers()
            } else {
                seq![Layer { branch: self.layers()[0].branch, local: folded(self.layers()) }]
            }),
            r.layers().len() - 1 <= COMPACT_MAX_DEPTH,
    {
        proof {
            self.lemma_layers();
        }
        if self.depth_up_to(COMPACT_MAX_DEPTH + 1) <= COMPACT_MAX_DEPTH {
            return self;
        }
        let mut merged: Table<IdentityId, NodeRevisionId> = Table::new();
        self.collect_bindings(&mut merged);
        assert(merged@ =~= folded(self.layers()));
        let r = RevisionIndexCow { branch_id: self.branch_id, local: merged, parent: None };
        proof {
            r.lemma_layers();
        }
        r
    }

    /// Keeps the bindings of all layers under an epoch.
    pub fn persist_ris_snapshot(&self, kv: &mut MemoryKv, epoch: u64)
        ensures
            exists|pairs: Seq<(IdentityId, NodeRevisionId)>| #[trigger]
                bindings::pairs_of(folded(self.layers()), pairs) && final(kv)@ == old(kv)@.insert(
                    snapshot_epoch_key(self.layers()[0].branch, epoch),
                    codec::pairs_json(raw_pairs(pairs)),
                ),
    {
        proof {
            self.lemma_layers();
        }
        let pairs = self.resolved_bindings();
        let mut raw: Vec<([u8; 16], [u8; 16])> = Vec::new();
        let mut i: usize = 0;
        while i < pairs.len()
            invariant
                i <= pairs.len(),
                raw.len() == i,
                forall|j: int|
                    0 <= j < i ==> #[trigger] raw@[j] == (pairs@[j].0.0, pairs@[j].1.0),
            decreases pairs.len() - i,
        {
            let (id, rev) = pairs[i];
            raw.push((id.0, rev.0));
            i = i + 1;
        }
        assert(raw@ =~= raw_pairs(pairs@));
        if let Some(payload) = pairs_to_json(&raw) {
            kv.set(ris_snapshot_kv_key(self.branch_id, epoch).as_str(), payload);
        }
    }

    /// Reads a snapshot's bytes as a branch without a parent.
    pub fn from_ris_bytes(branch_id: BranchId, payload: &Vec<u8>) -> (r: Option<Self>)
        ensures
            r is None <==> codec::pairs_of_json(payload@) is None,
            r matches Some(c) ==> c.layers() == seq![
                Layer {
                    branch: branch_id,
                    local: bindings_of_raw(codec::pairs_of_json(payload@)->0),
                },
            ],
            forall|b: Map<IdentityId, NodeRevisionId>, p: Seq<(IdentityId, NodeRevisionId)>|
                #![trigger bindings::pairs_of(b, p), codec::pairs_json(raw_pairs(p))]
                bindings::pairs_of(b, p) && payload@ == codec::pairs_json(raw_pairs(p)) ==> r is Some
                    && r->0.layers() == seq![Layer { branch: branch_id, local: b }],
    {
        let got = pairs_from_json(payload);
        proof {
            assert forall|b: Map<IdentityId, NodeRevisionId>, p: Seq<(IdentityId, NodeRevisionId)>|
                #![trigger bindings::pairs_of(b, p), codec::pairs_json(raw_pairs(p))]
                bindings::pairs_of(b, p) && payload@ == codec::pairs_json(raw_pairs(p)) implies got is Some
                && bindings_of_raw(got->0@) == b by {
                lemma_raw_pairs(b, p);
            }
        }
        let pairs = match got {
            Some(p) => p,
            None => {
                return None;
            },
        };
        let mut local: Table<IdentityId, NodeRevisionId> = Table::new();
        let mut i: usize = 0;
        assert(pairs@.take(0) =~= Seq::<([u8; 16], [u8; 16])>::empty());
        while i < pairs.len()
            invariant
                i <= pairs.len(),
                local@ == bindings_of_raw(pairs@.take(i as int)),
            decreases pairs.len() - i,
        {
            let (a, b) = pairs[i];
            proof {
                assert(pairs@.take(i + 1).drop_last() =~= pairs@.take(i as int));
                assert(pairs@.take(i + 1).last() == (a, b));
            }
            local.insert(IdentityId(a), NodeRevisionId(b));
            i = i + 1;
        }
        assert(pairs@.take(pairs@.len() as int) =~= pairs@);
        let r = RevisionIndexCow { branch_id, local, parent: None };
        proof {
            r.lemma_layers();
        }
        Some(r)
    }

    /// Reads the bindings that were kept under an epoch, as a branch without a parent. What
    /// `persist_ris_snapshot` kept is read back.
    pub fn from_ris_snapshot(branch_id: BranchId, kv: &MemoryKv, epoch: u64) -> (r: Option<Self>)
        ensures
            r is Some <==> (kv::value_at(kv@, snapshot_epoch_key(branch_id, epoch)) matches Some(v)
                && codec::pairs_of_json(v) is Some),
            r matches Some(c) ==> c.layers() == seq![
                Layer {
                    branch: branch_id,
                    local: bindings_of_raw(
                        codec::pairs_of_json(kv@[snapshot_epoch_key(branch_id, epoch)])->0,
                    ),
                },
            ],
            forall|b: Map<IdentityId, NodeRevisionId>, p: Seq<(IdentityId, NodeRevisionId)>|
                #![trigger bindings::pairs_of(b, p), codec::pairs_json(raw_pairs(p))]
                bindings::pairs_of(b, p) && kv::value_at(kv@, snapshot_epoch_key(branch_id, epoch)) == Some(
                    codec::pairs_json(raw_pairs(p)),
                ) ==> r is Some && r->0.layers() == seq![Layer { branch: branch_id, local: b }],
    {
        match kv.get(ris_snapshot_kv_key(branch_id, epoch).as_str()) {
            Some(payload) => Self::from_ris_bytes(branch_id, &payload),
            None => None,
        }
    }
}

/// The bytes of a snapshot: those in the store, or else those that were kept elsewhere.
pub open spec fn snapshot_bytes(
    m: Map<Seq<char>, Seq<u8>>,
    branch: BranchId,
    epoch: u64,
    elsewhere: Option<Seq<u8>>,
) -> Option<Seq<u8>> {
    match kv::value_at(m, snapshot_epoch_key(branch, epoch)) {
        Some(v) => Some(v),
        None => elsewhere,
    }
}

impl RevisionIndexCow {
    /// Reads the bindings that were kept under an epoch in the store, or else elsewhere.
    pub fn from_ris_snapshot_at(
        branch_id: BranchId,
        kv: &MemoryKv,
        epoch: u64,
        elsewhere: Option<Vec<u8>>,
    ) -> (r: Option<Self>)
        ensures
            ({
                let bytes = snapshot_bytes(
                    kv@,
                    branch_id,
                    epoch,
                    match elsewhere {
                        Some(v) => Some(v@),
                        None => None,
                    },
                );
                &&& r is Some <==> bytes is Some && codec::pairs_of_json(bytes->0) is Some
                &&& r matches Some(c) ==> c.layers() == seq![
                    Layer {
                        branch: branch_id,
                        local: bindings_of_raw(codec::pairs_of_json(bytes->0)->0),
                    },
                ]
            }),
    {
        let payload = match kv.get(ris_snapshot_kv_key(branch_id, epoch).as_str()) {
            Some(v) => Some(v),
            None => elsewhere,
        };
        match payload {
            Some(v) => Self::from_ris_bytes(branch_id, &v),
            None => None,
        }
    }
}

/// A layer that binds an identity hides what lies below it.
pub proof fn law_nearer_layer_wins(
    layers: Seq<Layer>,
    m: Map<Seq<char>, Seq<u8>>,
    i: IdentityId,
)
    requires
        layers.len() > 0,
    ensures
        keys::bound(m, layers[0].branch, i) matches Some(r) ==> cow_lookup(layers, m, i) == Some(r),
        keys::bound(m, layers[0].branch, i) is None && !layers[0].local.contains_key(i) ==> cow_lookup(
            layers,
            m,
            i,
        ) == cow_lookup(layers.skip(1), m, i),
{
}

/// No layer's own store binds `i`.
pub open spec fn unbound_in_store(
    layers: Seq<Layer>,
    m: Map<Seq<char>, Seq<u8>>,
    i: IdentityId,
) -> bool {
    forall|k: int| 0 <= k < layers.len() ==> keys::bound(m, (#[trigger] layers[k]).branch, i) is None
}

/// Folding layers changes no binding that is held in memory.
pub proof fn law_folding_keeps_bindings(
    layers: Seq<Layer>,
    m: Map<Seq<char>, Seq<u8>>,
    i: IdentityId,
)
    requires
        layers.len() > 0,
        unbound_in_store(layers, m, i),
    ensures
        cow_lookup(seq![Layer { branch: layers[0].branch, local: folded(layers) }], m, i)
            == cow_lookup(layers, m, i),
{
    lemma_folded_lookup(layers, m, i);
    let one = seq![Layer { branch: layers[0].branch, local: folded(layers) }];
    let none = Seq::<Layer>::empty();
    assert(one.skip(1) =~= none);
    assert(cow_lookup(none, m, i) is None);
    assert(one[0].branch == layers[0].branch);
}

/// Looking an identity up in memory and in the folded bindings is the same.
proof fn lemma_folded_lookup(layers: Seq<Layer>, m: Map<Seq<char>, Seq<u8>>, i: IdentityId)
    requires
        unbound_in_store(layers, m, i),
    ensures
        cow_lookup(layers, m, i) == (if folded(layers).contains_key(i) {
            Some(folded(layers)[i])
        } else {
            None
        }),
    decreases layers.len(),
{
    if layers.len() > 0 {
        let rest = layers.skip(1);
        assert forall|k: int| 0 <= k < rest.len() implies keys::bound(
            m,
            (#[trigger] rest[k]).branch,
            i,
        ) is None by {
            assert(rest[k] == layers[k + 1]);
        }
        lemma_folded_lookup(rest, m, i);
        assert(keys::bound(m, layers[0].branch, i) is None);
    }
}

} // verus!
