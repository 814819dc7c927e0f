//! Writing to the repository on behalf of a session.

use crate::ids::BranchId;
use crate::kv::MemoryKv;
use crate::merge_lock;
use crate::optimistic_patcher;
use crate::optimistic_patcher::{OptimisticPatchError, OptimisticPatcher};
use crate::patches::patch_err;
use crate::path_lease;
use crate::path_lease::{LeaseError, SessionId};
use crate::paths;
use crate::paths::path_in;
use crate::security;
use crate::security::{AuthError, AuthProvider};
use crate::text;
use crate::text::{append_text, chars_of, owned, same_text, text_begins_with, text_contains};
use vstd::prelude::*;

verus! {

/// Where a path that was asked for lies: an absolute path as it is, another one below the root.
pub open spec fn asked_path(root: Seq<char>, path: Seq<char>) -> Seq<char> {
    if path.len() > 0 && path[0] == '/' {
        path
    } else {
        paths::in_directory(root, path)
    }
}

/// Whether a path with no dots, links or doubled slashes lies in a directory, or is the directory.
pub open spec fn lies_below(root: Seq<char>, path: Seq<char>) -> bool {
    ||| path == root
    ||| root.len() > 0 && root.last() == '/' && text::begins_with(path, root)
    ||| text::begins_with(path, root + "/"@)
}

/// Tells whether a path lies in a directory.
pub fn path_below(root: &str, path: &str) -> (r: bool)
    ensures
        r == lies_below(root@, path@),
{
    if same_text(path, root) {
        return true;
    }
    let cs = chars_of(root);
    if cs.len() > 0 && cs[cs.len() - 1] == '/' && text_begins_with(path, root) {
        return true;
    }
    let mut dir = owned(root);
    append_text(&mut dir, "/");
    text_begins_with(path, dir.as_str())
}

/// Lets a write in: the session must be known, the disk must have room, and the path must not climb.
/// The answer is where the path lies.
pub fn admit_write(
    auth: &AuthProvider,
    session_id: u64,
    disk_pressure: bool,
    repo_root: &str,
    path: &str,
) -> (r: Result<String, AuthError>)
    ensures
        match r {
            Ok(p) => auth@.contains_key(session_id) && !disk_pressure && !text::contains_text(
                path@,
                ".."@,
            ) && p@ == asked_path(repo_root@, path@),
            Err(e) => if !auth@.contains_key(session_id) {
                e == AuthError::Unauthorized
            } else if disk_pressure {
                e == AuthError::DiskPressure
            } else {
                e == AuthError::Forbidden && text::contains_text(path@, ".."@)
            },
        },
{
    match auth.require_session(session_id) {
        Ok(_) => {},
        Err(e) => {
            return Err(e);
        },
    }
    if disk_pressure {
        return Err(AuthError::DiskPressure);
    }
    if text_contains(path, "..") {
        return Err(AuthError::Forbidden);
    }
    let cs = chars_of(path);
    if cs.len() > 0 && cs[0] == '/' {
        Ok(owned(path))
    } else {
        Ok(path_in(repo_root, path))
    }
}

/// A single path counts once.
proof fn lemma_one_path(p: Seq<char>, q: Seq<char>)
    ensures
        optimistic_patcher::times(seq![p], q) == (if q == p {
            1nat
        } else {
            0
        }),
{
    broadcast use vstd::multiset::group_multiset_axioms;

    let none = Seq::<Seq<char>>::empty();
    none.to_multiset_ensures();
    vstd::seq_lib::to_multiset_build(none, p);
    assert(none.push(p) =~= seq![p]);
    assert(none.to_multiset().len() == 0);
}

/// A list with the items of a single path is that path.
proof fn lemma_same_single(s: Seq<Seq<char>>, p: Seq<char>)
    requires
        s.to_multiset() == seq![p].to_multiset(),
    ensures
        s == seq![p],
{
    let one = seq![p];
    s.to_multiset_ensures();
    one.to_multiset_ensures();
    assert(s.len() == 1);
    assert(one.to_multiset().count(s[0]) > 0) by {
        assert(s.contains(s[0]));
    }
    assert(one.contains(s[0]));
    assert(s =~= one);
}

/// Opens a patch on one file for a write at `now_ms`. The file must lie below the root and below a
/// root of the session; no merge may hold the branch, and no other session the file.
pub fn open_write(
    auth: &AuthProvider,
    patcher: &mut OptimisticPatcher,
    kv: &MemoryKv,
    branch: BranchId,
    session_id: u64,
    root: &str,
    file: &str,
    now_ms: u64,
) -> (r: Result<u64, AuthError>)
    requires
        old(patcher).next() < u64::MAX,
        path_lease::count_of(old(patcher).counts(), file@) < u32::MAX,
    ensures
        old(patcher).coherent() ==> final(patcher).coherent(),
        ({
            let known = auth@.contains_key(session_id);
            let below = lies_below(root@, file@);
            let allowed = security::path_allowed(auth@[session_id].roots, file@);
            let locked = merge_lock::lock_holder(kv@, branch) is Some;
            let away = path_lease::leased_away(old(patcher).leased(), file@, SessionId(session_id));
            &&& r is Ok <==> below && known && allowed && !locked && !away
            &&& r is Err ==> r->Err_0 == (if below && !known {
                AuthError::Unauthorized
            } else {
                AuthError::Forbidden
            })
            &&& r is Err ==> final(patcher).same_as(old(patcher))
            &&& r matches Ok(id) ==> {
                &&& (*old(patcher)).patch_opened(
                    *final(patcher),
                    SessionId(session_id),
                    seq![file@],
                    id,
                )
                &&& final(patcher).open()[id].paths == seq![file@]
                &&& final(patcher).open()[id].created_ms == now_ms
            }
        }),
{
    if !path_below(root, file) {
        return Err(AuthError::Forbidden);
    }
    match auth.validate_path(session_id, file) {
        Ok(()) => {},
        Err(e) => {
            return Err(e);
        },
    }
    let mut paths: Vec<String> = Vec::new();
    paths.push(owned(file));
    let ghost asked = text::texts(paths@);
    let ghost before = *patcher;
    proof {
        assert(asked =~= seq![file@]);
        assert forall|q: Seq<char>| #[trigger]
            path_lease::count_of(patcher.counts(), q) + optimistic_patcher::times(asked, q) <= u32::MAX by {
            lemma_one_path(file@, q);
        }
    }
    match patcher.apply_speculative_at(SessionId(session_id), paths, Some((kv, branch)), now_ms) {
        Ok(id) => {
            proof {
                assert(asked.contains(file@)) by {
                    assert(asked[0] == file@);
                }
                lemma_same_single(patcher.open()[id].paths, file@);
            }
            Ok(id)
        },
        Err(e) => {
            proof {
                if let OptimisticPatchError::Lease(LeaseError::Conflict { holder }) = e {
                    let (sorted, k) = choose|sorted: Seq<Seq<char>>, k: int| #[trigger]
                        before.refused_at(*patcher, SessionId(session_id), sorted, k, holder)
                            && sorted.to_multiset() == asked.to_multiset();
                    lemma_same_single(sorted, file@);
                    assert(sorted.take(k) =~= Seq::<Seq<char>>::empty());
                    path_lease::lemma_same_leases(patcher.leased(), before.leased());
                }
            }
            Err(patch_err(&e))
        },
    }
}

} // verus!
