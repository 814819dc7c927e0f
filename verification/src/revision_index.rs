//! A branch's bindings, and how branches descend from each other.

use crate::bindings;
use crate::bytes;
use crate::bytes::{le_u64, u64_le};
use crate::clock::now_epoch_ms;
use crate::graph::contains_branch;
use crate::hex;
use crate::hex::array16;
use crate::ids;
use crate::ids::{BranchId, IdentityId, NodeRevisionId, bytes16};
use crate::keys;
use crate::keys::{binding_prefix_text, strip_prefix, tagged_key};
use crate::kv;
use crate::kv::MemoryKv;
use crate::revision_cow;
use crate::revision_cow::{Layer, RevisionIndexCow};
use crate::text;
use crate::text::{append_text, chars_of, chars_split, copy_bytes, owned};
use crate::tracker;
use vstd::prelude::*;

verus! {

/// How far up a branch's ancestors are followed.
pub const BRANCH_ANCESTRY_MAX_DEPTH: usize = 10;

/// `branch_parent:{child}`.
pub open spec fn parent_key(child: BranchId) -> Seq<char> {
    keys::tagged("branch_parent:"@, child.0@)
}

/// `fork_ts:{child}`.
pub open spec fn fork_time_key(child: BranchId) -> Seq<char> {
    keys::tagged("fork_ts:"@, child.0@)
}

/// The branch that a branch was made from.
pub open spec fn parent_of(m: Map<Seq<char>, Seq<u8>>, branch: BranchId) -> Option<BranchId> {
    match kv::value_at(m, parent_key(branch)) {
        Some(v) => if v.len() == 16 {
            Some(BranchId(ids::array_of(v)))
        } else {
            None
        },
        None => None,
    }
}

/// When a branch was made.
pub open spec fn forked_at(m: Map<Seq<char>, Seq<u8>>, branch: BranchId) -> Option<u64> {
    match kv::value_at(m, fork_time_key(branch)) {
        Some(v) => if v.len() == 8 {
            Some(bytes::le_value(v) as u64)
        } else {
            None
        },
        None => None,
    }
}

/// Reads the branch that a branch was made from.
fn read_parent(kv: &MemoryKv, branch: BranchId) -> (r: Option<BranchId>)
    ensures
        r == parent_of(kv@, branch),
{
    match kv.get(tagged_key("branch_parent:", &branch.0).as_str()) {
        Some(v) => {
            if v.len() != 16 {
                return None;
            }
            let a = array16(&v);
            proof {
                ids::lemma_array_of(a);
            }
            Some(BranchId(a))
        },
        None => None,
    }
}

/// Keeps when a branch was made.
pub fn record_fork_timestamp(kv: &mut MemoryKv, child: BranchId, now_ms: u64)
    ensures
        final(kv)@ == old(kv)@.insert(fork_time_key(child), bytes::le(now_ms as nat, 8)),
        forked_at(final(kv)@, child) == Some(now_ms),
{
    kv.set(tagged_key("fork_ts:", &child.0).as_str(), u64_le(now_ms));
}

/// Reads when a branch was made.
pub fn fork_timestamp(kv: &MemoryKv, branch: BranchId) -> (r: Option<u64>)
    ensures
        r == forked_at(kv@, branch),
{
    match kv.get(tagged_key("fork_ts:", &branch.0).as_str()) {
        Some(v) => {
            if v.len() != 8 {
                return None;
            }
            Some(le_u64(&v))
        },
        None => None,
    }
}

/// The parent's key for the binding that the child's key `k` is for.
pub open spec fn inherited_from(parent: BranchId, child: BranchId, k: Seq<char>) -> Seq<char> {
    keys::binding_prefix(parent) + keys::rest_of(k, keys::binding_prefix(child))
}

/// `k` is a binding of the child that it takes over from its parent: the parent has it, and the
/// child does not.
pub open spec fn inherits(
    m: Map<Seq<char>, Seq<u8>>,
    parent: BranchId,
    child: BranchId,
    k: Seq<char>,
) -> bool {
    &&& text::begins_with(k, keys::binding_prefix(child))
    &&& !keys::rest_of(k, keys::binding_prefix(child)).contains(':')
    &&& m.contains_key(inherited_from(parent, child, k))
    &&& !m.contains_key(k)
}

/// The bindings that a child takes over.
pub open spec fn inherited(m: Map<Seq<char>, Seq<u8>>, parent: BranchId, child: BranchId) -> Set<
    Seq<char>,
> {
    Set::new(|k: Seq<char>| inherits(m, parent, child, k))
}

/// The store with the bindings that a child takes over.
pub open spec fn with_inherited(
    m: Map<Seq<char>, Seq<u8>>,
    parent: BranchId,
    child: BranchId,
) -> Map<Seq<char>, Seq<u8>> {
    m.union_prefer_right(
        Map::new(
            |k: Seq<char>| inherits(m, parent, child, k),
            |k: Seq<char>| m[inherited_from(parent, child, k)],
        ),
    )
}

/// The store with a branch's parent on record, unless there is one already.
pub open spec fn with_parent(
    m: Map<Seq<char>, Seq<u8>>,
    parent: BranchId,
    child: BranchId,
) -> Map<Seq<char>, Seq<u8>> {
    if m.contains_key(parent_key(child)) {
        m
    } else {
        m.insert(parent_key(child), parent.0@)
    }
}

/// The store with a branch made from another.
pub open spec fn forked(
    m: Map<Seq<char>, Seq<u8>>,
    parent: BranchId,
    child: BranchId,
    now_ms: u64,
) -> Map<Seq<char>, Seq<u8>> {
    with_parent(with_inherited(m, parent, child), parent, child).insert(
        fork_time_key(child),
        bytes::le(now_ms as nat, 8),
    )
}

/// Copies the parent's bindings to the child, where the child has none; how many were copied.
fn copy_bindings(kv: &mut MemoryKv, parent: BranchId, child: BranchId) -> (n: usize)
    ensures
        final(kv)@ == with_inherited(old(kv)@, parent, child),
        inherited(old(kv)@, parent, child).finite(),
        n == inherited(old(kv)@, parent, child).len(),
{
    let ghost m0 = kv@;
    let ghost pp = keys::binding_prefix(parent);
    let ghost cp = keys::binding_prefix(child);
    let parent_prefix = binding_prefix_text(parent);
    let child_prefix = binding_prefix_text(child);
    let rows = kv.scan_prefix(parent_prefix.as_str());
    let ghost mut hits: Seq<Seq<char>> = Seq::empty();
    let mut n: usize = 0;
    let mut i: usize = 0;
    while i < rows.len()
        invariant
            i <= rows.len(),
            n <= i,
            m0 == old(kv)@,
            pp == keys::binding_prefix(parent),
            cp == keys::binding_prefix(child),
            parent_prefix@ == pp,
            child_prefix@ == cp,
            kv::scanned(m0, pp, rows@),
            n == hits.len(),
            hits.no_duplicates(),
            forall|k: Seq<char>| #[trigger]
                hits.contains(k) ==> inherits(m0, parent, child, k),
            forall|k: Seq<char>| #[trigger]
                hits.contains(k) ==> exists|j: int|
                    0 <= j < i && (#[trigger] rows@[j]).0@ == inherited_from(parent, child, k),
            forall|k: Seq<char>| #[trigger]
                kv@.contains_key(k) <==> m0.contains_key(k) || hits.contains(k),
            forall|k: Seq<char>| #[trigger]
                kv@.contains_key(k) ==> kv@[k] == (if m0.contains_key(k) {
                    m0[k]
                } else {
                    m0[inherited_from(parent, child, k)]
                }),
            forall|k: Seq<char>, j: int|
                #![trigger hits.contains(k), rows@[j]]
                0 <= j < i && rows@[j].0@ == inherited_from(parent, child, k) && inherits(
                    m0,
                    parent,
                    child,
                    k,
                ) ==> hits.contains(k),
        decreases rows.len() - i,
    {
        let ghost h0 = hits;
        let ghost m1 = kv@;
        let ghost row = rows@[i as int];
        assert(m0.contains_pair(row.0@, row.1@));
        let mut took = false;
        let ghost mut new_key = Seq::<char>::empty();
        if let Some(rest) = strip_prefix(rows[i].0.as_str(), parent_prefix.as_str()) {
            let parts = chars_split(&chars_of(rest.as_str()), ':');
            let ghost rv = rest@;
            proof {
                lemma_one_piece(rv, ':');
                assert(text::chars_views(parts@).len() == parts@.len());
                keys::lemma_begins(cp, rv);
                keys::lemma_prefix_and_rest(row.0@, pp);
                new_key = cp + rv;
                assert(inherited_from(parent, child, new_key) == row.0@);
            }
            if parts.len() == 1 {
                let mut key = owned(child_prefix.as_str());
                append_text(&mut key, rest.as_str());
                assert(key@ == new_key);
                if kv.get(key.as_str()).is_none() {
                    kv.set(key.as_str(), copy_bytes(&rows[i].1));
                    n = n + 1;
                    took = true;
                    proof {
                        hits = hits.push(new_key);
                        assert(inherits(m0, parent, child, new_key));
                        assert(!h0.contains(new_key));
                    }
                } else {
                    assert(m0.contains_key(new_key) || h0.contains(new_key));
                }
            }
        }
        proof {
            assert forall|k: Seq<char>| hits.contains(k) <==> h0.contains(k) || (took && k
                == new_key) by {
                tracker::lemma_push_contains(h0, new_key, k);
            }
            assert forall|k: Seq<char>| #[trigger] hits.contains(k) implies exists|j: int|
                0 <= j < i + 1 && (#[trigger] rows@[j]).0@ == inherited_from(parent, child, k) by {
                if h0.contains(k) {
                    let j = choose|j: int|
                        0 <= j < i && (#[trigger] rows@[j]).0@ == inherited_from(parent, child, k);
                    assert(rows@[j].0@ == inherited_from(parent, child, k));
                } else {
                    assert(rows@[i as int].0@ == inherited_from(parent, child, k));
                }
            }
            assert forall|k: Seq<char>, j: int|
                #![trigger hits.contains(k), rows@[j]]
                0 <= j < i + 1 && rows@[j].0@ == inherited_from(parent, child, k) && inherits(
                    m0,
                    parent,
                    child,
                    k,
                ) implies hits.contains(k) by {
                if j < i {
                    assert(h0.contains(k));
                } else {
                    keys::lemma_prefix_and_rest(k, cp);
                    keys::lemma_begins(pp, keys::rest_of(k, cp));
                    assert(keys::rest_of(row.0@, pp) == keys::rest_of(k, cp));
                    assert(k == new_key);
                }
            }
        }
        i = i + 1;
    }
    proof {
        let s = inherited(m0, parent, child);
        assert forall|k: Seq<char>| s.contains(k) <==> hits.to_set().contains(k) by {
            if s.contains(k) {
                let pk = inherited_from(parent, child, k);
                keys::lemma_begins(pp, keys::rest_of(k, cp));
                assert(m0.contains_key(pk) && text::begins_with(pk, pp));
                let j = choose|j: int| 0 <= j < rows@.len() && (#[trigger] rows@[j]).0@ == pk;
                assert(rows@[j].0@ == pk);
                assert(hits.contains(k));
            }
            if hits.to_set().contains(k) {
                assert(hits.contains(k));
            }
        }
        assert(s =~= hits.to_set());
        hits.unique_seq_to_set();
        let want = with_inherited(m0, parent, child);
        assert forall|k: Seq<char>| kv@.contains_key(k) <==> want.contains_key(k) by {
            assert(s.contains(k) <==> hits.contains(k));
        }
        assert forall|k: Seq<char>| kv@.contains_key(k) implies kv@[k] == want[k] by {
            assert(s.contains(k) <==> hits.contains(k));
        }
        assert(kv@ =~= want);
    }
    n
}

/// A text is one piece exactly where it holds no separator.
proof fn lemma_one_piece(s: Seq<char>, sep: char)
    ensures
        text::pieces(s, sep).len() == 1 <==> !s.contains(sep),
    decreases s.len(),
{
    text::lemma_pieces_nonempty(s, sep);
    if !s.contains(sep) {
        text::lemma_pieces_of_whole(s, sep);
    } else {
        lemma_split_has_two(s, sep);
    }
}

/// A text with a separator has at least two pieces.
proof fn lemma_split_has_two(s: Seq<char>, sep: char)
    requires
        s.contains(sep),
    ensures
        text::pieces(s, sep).len() >= 2,
    decreases s.len(),
{
    let t = s.drop_first();
    text::lemma_pieces_nonempty(t, sep);
    if s[0] != sep {
        let i = choose|i: int| 0 <= i < s.len() && s[i] == sep;
        assert(t[i - 1] == sep);
        lemma_split_has_two(t, sep);
    }
}

/// Makes a branch from another at a given time: it takes over the parent's bindings that it does
/// not have, and the parent and the time go on record.
pub fn fork_branch_bindings_at(
    kv: &mut MemoryKv,
    parent: BranchId,
    child: BranchId,
    now_ms: u64,
) -> (n: usize)
    ensures
        final(kv)@ == forked(old(kv)@, parent, child, now_ms),
        n == inherited(old(kv)@, parent, child).len(),
{
    let n = copy_bindings(kv, parent, child);
    let meta = tagged_key("branch_parent:", &child.0);
    if kv.get(meta.as_str()).is_none() {
        kv.set(meta.as_str(), bytes16(&parent.0));
    }
    record_fork_timestamp(kv, child, now_ms);
    n
}

/// Makes a branch from another now.
pub fn fork_branch_bindings(kv: &mut MemoryKv, parent: BranchId, child: BranchId) -> (n: usize)
    ensures
        exists|now_ms: u64| final(kv)@ == #[trigger] forked(old(kv)@, parent, child, now_ms),
        n == inherited(old(kv)@, parent, child).len(),
{
    let now_ms = now_epoch_ms();
    fork_branch_bindings_at(kv, parent, child, now_ms)
}

/// The ancestors behind `chain`, from `cur` on, as far as they are followed: no branch twice, and no
/// more than eleven in all.
pub open spec fn ancestry_from(
    m: Map<Seq<char>, Seq<u8>>,
    chain: Seq<BranchId>,
    cur: BranchId,
) -> Seq<BranchId>
    decreases 11 - chain.len(),
{
    if chain.contains(cur) || chain.len() > BRANCH_ANCESTRY_MAX_DEPTH {
        chain
    } else {
        match parent_of(m, cur) {
            Some(p) => ancestry_from(m, chain.push(cur), p),
            None => chain.push(cur),
        }
    }
}

/// A branch and its ancestors, the nearest first.
pub open spec fn ancestry(m: Map<Seq<char>, Seq<u8>>, branch: BranchId) -> Seq<BranchId> {
    ancestry_from(m, Seq::empty(), branch)
}

/// Reads a branch and its ancestors.
pub fn branch_ancestry(kv: &MemoryKv, branch: BranchId) -> (r: Vec<BranchId>)
    ensures
        r@ == ancestry(kv@, branch),
{
    let mut chain: Vec<BranchId> = Vec::new();
    let mut cur = branch;
    assert(chain@ =~= Seq::<BranchId>::empty());
    while chain.len() <= BRANCH_ANCESTRY_MAX_DEPTH
        invariant_except_break
            chain.len() <= 11,
            ancestry_from(kv@, chain@, cur) == ancestry(kv@, branch),
        ensures
            chain@ == ancestry(kv@, branch),
        decreases 11 - chain.len(),
    {
        if contains_branch(&chain, cur) {
            break;
        }
        chain.push(cur);
        match read_parent(kv, cur) {
            Some(p) => {
                cur = p;
            },
            None => {
                break;
            },
        }
    }
    chain
}

/// Each branch of an ancestry but the first is the parent of the one before it.
pub open spec fn descends(m: Map<Seq<char>, Seq<u8>>, chain: Seq<BranchId>) -> bool {
    forall|i: int, j: int|
        0 <= i && j == i + 1 && j < chain.len() ==> parent_of(m, #[trigger] chain[i]) == Some(
            #[trigger] chain[j],
        )
}

/// An ancestry grows by parents.
proof fn lemma_ancestry_from(m: Map<Seq<char>, Seq<u8>>, chain: Seq<BranchId>, cur: BranchId)
    requires
        chain.no_duplicates(),
        descends(m, chain),
        chain.len() > 0 ==> parent_of(m, chain.last()) == Some(cur),
        chain.len() <= 11,
    ensures
        ancestry_from(m, chain, cur).no_duplicates(),
        descends(m, ancestry_from(m, chain, cur)),
        ancestry_from(m, chain, cur).len() <= 11,
        chain.is_prefix_of(ancestry_from(m, chain, cur)),
        !chain.contains(cur) && chain.len() <= 10 ==> chain.push(cur).is_prefix_of(
            ancestry_from(m, chain, cur),
        ),
    decreases 11 - chain.len(),
{
    if !(chain.contains(cur) || chain.len() > BRANCH_ANCESTRY_MAX_DEPTH) {
        let next = chain.push(cur);
        assert(descends(m, next)) by {
            assert forall|i: int, j: int| 0 <= i && j == i + 1 && j < next.len() implies parent_of(
                m,
                #[trigger] next[i],
            ) == Some(#[trigger] next[j]) by {
                if j < chain.len() {
                    assert(parent_of(m, chain[i]) == Some(chain[j]));
                }
            }
        }
        if let Some(p) = parent_of(m, cur) {
            lemma_ancestry_from(m, next, p);
            assert(chain.is_prefix_of(next));
        }
    }
}

/// An ancestry begins with the branch itself, names no branch twice, is at most eleven long, and
/// every next one is the parent of the one before.
pub proof fn law_ancestry(m: Map<Seq<char>, Seq<u8>>, branch: BranchId)
    ensures
        ancestry(m, branch).len() >= 1,
        ancestry(m, branch)[0] == branch,
        ancestry(m, branch).no_duplicates(),
        ancestry(m, branch).len() <= 11,
        descends(m, ancestry(m, branch)),
{
    let none = Seq::<BranchId>::empty();
    lemma_ancestry_from(m, none, branch);
    assert(none.push(branch)[0] == branch);
}

/// A new branch has what its parent has bound, and its parent is on record.
pub proof fn law_forked_branch_inherits(
    m: Map<Seq<char>, Seq<u8>>,
    parent: BranchId,
    child: BranchId,
    now_ms: u64,
    i: IdentityId,
)
    requires
        !m.contains_key(keys::binding_key(child, i)),
    ensures
        keys::bound(forked(m, parent, child, now_ms), child, i) == keys::bound(m, parent, i),
        !m.contains_key(parent_key(child)) ==> parent_of(forked(m, parent, child, now_ms), child)
            == Some(parent),
{
    let key = keys::binding_key(child, i);
    let pk = keys::binding_key(parent, i);
    keys::lemma_binding_key_injective(child, i, child, i);
    keys::lemma_binding_key_injective(parent, i, parent, i);
    keys::lemma_prefix_and_rest(pk, keys::binding_prefix(parent));
    hex::lemma_hex_has_no_colon(i.0@);
    assert(inherited_from(parent, child, key) == pk);
    reveal_strlit("ri:");
    reveal_strlit("branch_parent:");
    reveal_strlit("fork_ts:");
    keys::lemma_tagged_injective("branch_parent:"@, child.0, child.0);
    keys::lemma_tagged_injective("fork_ts:"@, child.0, child.0);
    keys::lemma_prefixes_differ(key, keys::binding_prefix(child), parent_key(child), "branch_parent:"@, 0);
    keys::lemma_prefixes_differ(key, keys::binding_prefix(child), fork_time_key(child), "fork_ts:"@, 0);
    keys::lemma_prefixes_differ(
        parent_key(child),
        "branch_parent:"@,
        fork_time_key(child),
        "fork_ts:"@,
        0,
    );
    if text::begins_with(parent_key(child), keys::binding_prefix(child)) {
        keys::lemma_prefixes_differ(
            parent_key(child),
            "branch_parent:"@,
            parent_key(child),
            keys::binding_prefix(child),
            0,
        );
    }
    ids::lemma_array_of(parent.0);
}

/// A branch's bindings.
pub struct RevisionIndex {
    inner: RevisionIndexCow,
}

impl RevisionIndex {
    /// The layers, the nearest first.
    pub closed spec fn layers(&self) -> Seq<Layer> {
        self.inner.layers()
    }

    /// A branch with what the store binds on it in memory.
    pub fn new(branch_id: BranchId, kv: &MemoryKv) -> (r: Self)
        ensures
            r.layers().len() == 1,
            r.layers()[0].branch == branch_id,
            bindings::branch_binds(kv@, branch_id, r.layers()[0].local),
    {
        RevisionIndex { inner: RevisionIndexCow::root_hydrated(branch_id, kv) }
    }

    /// The branch.
    pub fn branch_id(&self) -> (r: BranchId)
        ensures
            r == self.layers()[0].branch,
    {
        self.inner.branch_id()
    }

    /// The layers themselves.
    pub fn as_cow(&self) -> (r: &RevisionIndexCow)
        ensures
            r.layers() == self.layers(),
    {
        &self.inner
    }

    /// Binds an identity.
    pub fn bind(
        &mut self,
        kv: &mut MemoryKv,
        identity_id: IdentityId,
        revision_id: NodeRevisionId,
    )
        ensures
            final(self).layers() == old(self).layers().update(
                0,
                Layer {
                    branch: old(self).layers()[0].branch,
                    local: old(self).layers()[0].local.insert(identity_id, revision_id),
                },
            ),
            final(kv)@ == old(kv)@.insert(
                keys::binding_key(old(self).layers()[0].branch, identity_id),
                revision_id.0@,
            ),
            revision_cow::cow_lookup(final(self).layers(), final(kv)@, identity_id) == Some(revision_id),
    {
        self.inner.bind(kv, identity_id, revision_id);
    }

    /// What an identity is bound to.
    pub fn lookup(&mut self, kv: &MemoryKv, identity_id: IdentityId) -> (r: Option<NodeRevisionId>)
        ensures
            r == revision_cow::cow_lookup(old(self).layers(), kv@, identity_id),
            final(self).layers() == revision_cow::cow_cached(old(self).layers(), kv@, identity_id),
    {
        self.inner.lookup(kv, identity_id)
    }

    /// The bindings held in memory, each identity once.
    pub fn scan_branch(&self) -> (r: Vec<(IdentityId, NodeRevisionId)>)
        ensures
            bindings::pairs_of(revision_cow::folded(self.layers()), r@),
    {
        self.inner.resolved_bindings()
    }
}

} // verus!
