//! What a branch binds identities to, read from the store as a whole.

use crate::hex;
use crate::hex::parse_hex16;
use crate::ids;
use crate::ids::{BranchId, IdentityId, NodeRevisionId};
use crate::keys;
use crate::keys::{binding_prefix_text, revision_from_bytes, strip_prefix};
use crate::kv;
use crate::kv::MemoryKv;
use crate::table;
use crate::table::Table;
use crate::text;
use vstd::prelude::*;

verus! {

/// The binding that a row of a branch's bindings holds.
pub open spec fn row_binding(row: (String, Vec<u8>), prefix: Seq<char>) -> Option<
    (IdentityId, NodeRevisionId),
> {
    match (hex::bytes_of_hex(keys::rest_of(row.0@, prefix), 16), keys::revision_of(row.1@)) {
        (Some(i), Some(r)) => Some((IdentityId(ids::array_of(i)), r)),
        _ => None,
    }
}

/// The bindings that rows hold; of two for one identity the later counts.
pub open spec fn bindings_in(rows: Seq<(String, Vec<u8>)>, prefix: Seq<char>) -> Map<
    IdentityId,
    NodeRevisionId,
>
    decreases rows.len(),
{
    if rows.len() == 0 {
        Map::empty()
    } else {
        let front = bindings_in(rows.drop_last(), prefix);
        match row_binding(rows.last(), prefix) {
            Some((i, r)) => front.insert(i, r),
            None => front,
        }
    }
}

/// `b` is what a branch binds, as its rows are read in some order.
pub open spec fn branch_binds(
    m: Map<Seq<char>, Seq<u8>>,
    branch: BranchId,
    b: Map<IdentityId, NodeRevisionId>,
) -> bool {
    exists|rows: Seq<(String, Vec<u8>)>| #[trigger]
        kv::scanned(m, keys::binding_prefix(branch), rows) && b == bindings_in(rows, keys::binding_prefix(branch))
}

/// Every binding key of a branch is one that an identity gives.
pub open spec fn bindings_clean(m: Map<Seq<char>, Seq<u8>>, branch: BranchId) -> bool {
    forall|k: Seq<char>| #[trigger]
        m.contains_key(k) && text::begins_with(k, keys::binding_prefix(branch)) ==> exists|i: IdentityId|
            k == #[trigger] keys::binding_key(branch, i)
}

/// Reads a binding from a row.
pub fn read_row_binding(row: &(String, Vec<u8>), prefix: &str) -> (r: Option<
    (IdentityId, NodeRevisionId),
>)
    requires
        text::begins_with(row.0@, prefix@),
    ensures
        r == row_binding(*row, prefix@),
{
    match strip_prefix(row.0.as_str(), prefix) {
        Some(rest) => match (parse_hex16(rest.as_str()), revision_from_bytes(&row.1)) {
            (Some(i), Some(rev)) => {
                proof {
                    ids::lemma_array_of(i);
                }
                Some((IdentityId(i), rev))
            },
            _ => None,
        },
        None => None,
    }
}

/// Reads what a branch binds.
pub fn scan_branch_bindings(kv: &MemoryKv, branch_id: BranchId) -> (r: Table<
    IdentityId,
    NodeRevisionId,
>)
    ensures
        branch_binds(kv@, branch_id, r@),
{
    let prefix = binding_prefix_text(branch_id);
    let rows = kv.scan_prefix(prefix.as_str());
    let mut out: Table<IdentityId, NodeRevisionId> = Table::new();
    let mut i: usize = 0;
    assert(rows@.take(0) =~= Seq::<(String, Vec<u8>)>::empty());
    while i < rows.len()
        invariant
            i <= rows.len(),
            prefix@ == keys::binding_prefix(branch_id),
            kv::scanned(kv@, keys::binding_prefix(branch_id), rows@),
            out@ == bindings_in(rows@.take(i as int), prefix@),
        decreases rows.len() - i,
    {
        proof {
            assert(rows@.take(i + 1).drop_last() =~= rows@.take(i as int));
            assert(rows@.take(i + 1).last() == rows@[i as int]);
        }
        if let Some((ident, rev)) = read_row_binding(&rows[i], prefix.as_str()) {
            out.insert(ident, rev);
        }
        i = i + 1;
    }
    assert(rows@.take(rows@.len() as int) =~= rows@);
    out
}

/// The entries of a table of bindings, each once.
pub fn binding_pairs(t: &Table<IdentityId, NodeRevisionId>) -> (r: Vec<
    (IdentityId, NodeRevisionId),
>)
    ensures
        pairs_of(t@, r@),
{
    let n = t.len();
    let mut out: Vec<(IdentityId, NodeRevisionId)> = Vec::new();
    let mut i: usize = 0;
    while i < n
        invariant
            i <= n,
            n == t.rows().len(),
            t.consistent(),
            out.len() == i,
            forall|j: int| 0 <= j < i ==> #[trigger] out@[j] == t.rows()[j],
        decreases n - i,
    {
        out.push((*t.key_at(i), *t.value_at(i)));
        i = i + 1;
    }
    proof {
        assert(out@ =~= t.rows());
        table::lemma_map_of(t.rows());
    }
    out
}

/// `pairs` are the entries of `b`, each once.
pub open spec fn pairs_of(
    b: Map<IdentityId, NodeRevisionId>,
    pairs: Seq<(IdentityId, NodeRevisionId)>,
) -> bool {
    &&& table::names_differ(pairs)
    &&& b == table::map_of(pairs)
    &&& forall|i: int| 0 <= i < pairs.len() ==> b.contains_pair((#[trigger] pairs[i]).0, pairs[i].1)
    &&& forall|k: IdentityId| #[trigger]
        b.contains_key(k) ==> exists|i: int| 0 <= i < pairs.len() && (#[trigger] pairs[i]).0 == k
}

/// The bindings of a branch from before a merge.
pub fn premerge_bindings_for_branch(kv: &MemoryKv, branch_id: BranchId) -> (r: Vec<
    (IdentityId, NodeRevisionId),
>)
    ensures
        exists|b: Map<IdentityId, NodeRevisionId>| #[trigger]
            branch_binds(kv@, branch_id, b) && pairs_of(b, r@),
{
    let t = scan_branch_bindings(kv, branch_id);
    binding_pairs(&t)
}

/// Where every binding key of a branch is one that an identity gives, reading them all and reading
/// one at a time agree.
pub proof fn law_bindings_agree(
    m: Map<Seq<char>, Seq<u8>>,
    branch: BranchId,
    b: Map<IdentityId, NodeRevisionId>,
    i: IdentityId,
)
    requires
        bindings_clean(m, branch),
        branch_binds(m, branch, b),
    ensures
        keys::bound(m, branch, i) == (if b.contains_key(i) {
            Some(b[i])
        } else {
            None
        }),
{
    let p = keys::binding_prefix(branch);
    let rows = choose|rows: Seq<(String, Vec<u8>)>| #[trigger]
        kv::scanned(m, p, rows) && b == bindings_in(rows, p);
    assert(rows.take(rows.len() as int) =~= rows);
    lemma_bindings_agree(m, branch, rows, rows.len() as int, i);
    let key = keys::binding_key(branch, i);
    keys::lemma_binding_key_injective(branch, i, branch, i);
    if m.contains_key(key) {
        let at = choose|j: int| 0 <= j < rows.len() && (#[trigger] rows[j]).0@ == key;
        assert(rows[at].0@ == key);
    }
}

/// Among the first `n` rows, the one under an identity's key settles its binding.
proof fn lemma_bindings_agree(
    m: Map<Seq<char>, Seq<u8>>,
    branch: BranchId,
    rows: Seq<(String, Vec<u8>)>,
    n: int,
    i: IdentityId,
)
    requires
        bindings_clean(m, branch),
        kv::scanned(m, keys::binding_prefix(branch), rows),
        0 <= n <= rows.len(),
    ensures
        ({
            let b = bindings_in(rows.take(n), keys::binding_prefix(branch));
            let key = keys::binding_key(branch, i);
            if exists|j: int| 0 <= j < n && (#[trigger] rows[j]).0@ == key {
                keys::bound(m, branch, i) == (if b.contains_key(i) {
                    Some(b[i])
                } else {
                    None
                })
            } else {
                !b.contains_key(i)
            }
        }),
    decreases n,
{
    let p = keys::binding_prefix(branch);
    let key = keys::binding_key(branch, i);
    if n > 0 {
        lemma_bindings_agree(m, branch, rows, n - 1, i);
        let s = rows.take(n);
        assert(s.drop_last() =~= rows.take(n - 1));
        assert(s.last() == rows[n - 1]);
        let row = rows[n - 1];
        assert(m.contains_pair(row.0@, row.1@));
        let j = choose|j: IdentityId| row.0@ == #[trigger] keys::binding_key(branch, j);
        keys::lemma_binding_key_injective(branch, j, branch, i);
        hex::lemma_hex_reads_back(j.0@);
        ids::lemma_array_of(j.0);
        assert(keys::rest_of(row.0@, p) == hex::hex_of(j.0@));
        if row.0@ == key {
            assert forall|x: int| 0 <= x < n - 1 implies (#[trigger] rows[x]).0@ != key by {}
        }
    }
}

} // verus!
