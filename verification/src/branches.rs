//! Making, choosing, listing and purging branches.

use crate::bindings;
use crate::clock::now_epoch_ms;
use crate::hex;
use crate::hex::{hex16, parse_strict_id};
use crate::ids::{BranchId, IdentityId};
use crate::keys;
use crate::keys::binding_prefix_text;
use crate::kv;
use crate::kv::MemoryKv;
use crate::revision_cow::RevisionIndexCow;
use crate::revision_index;
use crate::revision_index::fork_branch_bindings_at;
use crate::security::{AuthError, AuthProvider};
use crate::text;
use crate::text::{owned, text_trim};
use vstd::prelude::*;

verus! {

/// A branch with its name.
#[derive(Debug)]
pub struct BranchInfo {
    pub name: String,
    pub branch_id_hex: String,
}

/// The values of a branch with its name.
pub open spec fn info_view(b: BranchInfo) -> (Seq<char>, Seq<char>) {
    (b.name@, b.branch_id_hex@)
}

/// Branches that are listed.
pub open spec fn infos(v: Seq<BranchInfo>) -> Seq<(Seq<char>, Seq<char>)> {
    v.map_values(|b: BranchInfo| info_view(b))
}

/// Lists branches, each with its id in hexadecimal digits.
pub fn list_branches(branches: &Vec<(String, BranchId)>) -> (r: Vec<BranchInfo>)
    ensures
        infos(r@) == branches@.map_values(|b: (String, BranchId)| (b.0@, hex::hex_of(b.1.0@))),
{
    let mut out: Vec<BranchInfo> = Vec::new();
    let mut i: usize = 0;
    while i < branches.len()
        invariant
            i <= branches.len(),
            out.len() == i,
            forall|k: int|
                0 <= k < i ==> info_view(#[trigger] out[k]) == (
                    branches[k].0@,
                    hex::hex_of(branches[k].1.0@),
                ),
        decreases branches.len() - i,
    {
        let name = owned(branches[i].0.as_str());
        let branch_id_hex = hex16(&branches[i].1.0);
        out.push(BranchInfo { name, branch_id_hex });
        i = i + 1;
    }
    proof {
        let want = branches@.map_values(|b: (String, BranchId)| (b.0@, hex::hex_of(b.1.0@)));
        assert forall|k: int| 0 <= k < out@.len() implies infos(out@)[k] == want[k] by {
            assert(info_view(out@[k]) == (branches@[k].0@, hex::hex_of(branches@[k].1.0@)));
        }
        assert(infos(out@) =~= want);
    }
    out
}

/// A name says nothing.
pub open spec fn is_blank(name: Seq<char>) -> bool {
    text::trimmed(name).len() == 0
}

/// Whether a name says nothing.
pub fn name_is_blank(name: &str) -> (r: bool)
    ensures
        r == is_blank(name@),
{
    let t = text_trim(name);
    t.as_str().is_empty()
}

/// A branch can be made: it has a name, and is not its own parent.
pub open spec fn can_create(name: Seq<char>, parent: BranchId, child: BranchId) -> bool {
    !is_blank(name) && child != parent
}

/// Makes a branch from another at a given time; how many bindings it took over.
pub fn create_branch_at(
    auth: &AuthProvider,
    kv: &mut MemoryKv,
    session_id: u64,
    name: &str,
    parent: BranchId,
    child: BranchId,
    now_ms: u64,
) -> (r: Result<usize, AuthError>)
    ensures
        ({
            let known = auth@.contains_key(session_id);
            &&& r is Ok <==> known && can_create(name@, parent, child)
            &&& r is Err ==> final(kv)@ == old(kv)@ && r->Err_0 == (if known {
                AuthError::InvalidInput
            } else {
                AuthError::Unauthorized
            })
            &&& r matches Ok(n) ==> n == revision_index::inherited(old(kv)@, parent, child).len() && final(kv)@
                == revision_index::forked(old(kv)@, parent, child, now_ms)
        }),
{
    if let Err(e) = auth.require_session(session_id) {
        return Err(e);
    }
    if name_is_blank(name) || child == parent {
        return Err(AuthError::InvalidInput);
    }
    Ok(fork_branch_bindings_at(kv, parent, child, now_ms))
}

/// Makes a branch from another now.
pub fn create_branch(
    auth: &AuthProvider,
    kv: &mut MemoryKv,
    session_id: u64,
    name: &str,
    parent: BranchId,
    child: BranchId,
) -> (r: Result<usize, AuthError>)
    ensures
        ({
            let known = auth@.contains_key(session_id);
            &&& r is Ok <==> known && can_create(name@, parent, child)
            &&& r is Err ==> final(kv)@ == old(kv)@ && r->Err_0 == (if known {
                AuthError::InvalidInput
            } else {
                AuthError::Unauthorized
            })
            &&& r matches Ok(n) ==> n == revision_index::inherited(old(kv)@, parent, child).len() && exists|
                now_ms: u64,
            |
                final(kv)@ == #[trigger] revision_index::forked(old(kv)@, parent, child, now_ms)
        }),
{
    let now_ms = now_epoch_ms();
    create_branch_at(auth, kv, session_id, name, parent, child, now_ms)
}

/// Chooses a branch: its bindings as they are on record.
pub fn switch_branch(
    auth: &AuthProvider,
    kv: &MemoryKv,
    session_id: u64,
    name: &str,
    branch: BranchId,
) -> (r: Result<RevisionIndexCow, AuthError>)
    ensures
        match r {
            Ok(ri) => {
                &&& auth@.contains_key(session_id)
                &&& !is_blank(name@)
                &&& ri.layers().len() == 1
                &&& ri.layers()[0].branch == branch
                &&& bindings::branch_binds(kv@, branch, ri.layers()[0].local)
            },
            Err(e) => if auth@.contains_key(session_id) {
                is_blank(name@) && e == AuthError::InvalidInput
            } else {
                e == AuthError::Unauthorized
            },
        },
{
    if let Err(e) = auth.require_session(session_id) {
        return Err(e);
    }
    if name_is_blank(name) {
        return Err(AuthError::InvalidInput);
    }
    Ok(RevisionIndexCow::root_hydrated(branch, kv))
}

/// Takes the bindings of a branch out of the store; the branch, and how many there were.
pub fn purge_branch(auth: &AuthProvider, kv: &mut MemoryKv, session_id: u64, branch_hex: &str) -> (r:
    Result<(BranchId, usize), AuthError>)
    ensures
        ({
            let known = auth@.contains_key(session_id);
            &&& r is Ok <==> known && hex::strict_id(branch_hex@) is Some
            &&& r is Err ==> final(kv)@ == old(kv)@ && r->Err_0 == (if known {
                AuthError::InvalidInput
            } else {
                AuthError::Unauthorized
            })
            &&& r matches Ok(done) ==> {
                &&& hex::strict_id(branch_hex@) == Some(done.0.0@)
                &&& final(kv)@ == kv::without_prefix(old(kv)@, keys::binding_prefix(done.0))
                &&& done.1 == old(kv)@.dom().filter(
                    |k: Seq<char>| text::begins_with(k, keys::binding_prefix(done.0)),
                ).len()
            }
        }),
{
    if let Err(e) = auth.require_session(session_id) {
        return Err(e);
    }
    match parse_strict_id(branch_hex) {
        Some(b) => {
            let prefix = binding_prefix_text(BranchId(b));
            let n = kv.delete_prefix(prefix.as_str());
            Ok((BranchId(b), n))
        },
        None => Err(AuthError::InvalidInput),
    }
}

/// A branch that was purged binds nothing, and no other branch lost a binding.
pub proof fn law_purged_branch_binds_nothing(
    m: Map<Seq<char>, Seq<u8>>,
    branch: BranchId,
    other: BranchId,
    iid: IdentityId,
)
    ensures
        ({
            let left = kv::without_prefix(m, keys::binding_prefix(branch));
            &&& kv::value_at(left, keys::binding_key(branch, iid)) is None
            &&& other != branch ==> kv::value_at(left, keys::binding_key(other, iid)) == kv::value_at(
                m,
                keys::binding_key(other, iid),
            )
        }),
{
    keys::lemma_binding_key_injective(branch, iid, branch, iid);
    if other != branch {
        keys::lemma_binding_key_injective(other, iid, other, iid);
        if text::begins_with(keys::binding_key(other, iid), keys::binding_prefix(branch)) {
            keys::lemma_tagged_prefix_differs("ri:"@, other.0, branch.0, keys::binding_key(other, iid));
        }
    }
}

} // verus!
