//! Speculative patches: each holds leases on its paths until it is promoted or reverted.

use crate::clock::now_epoch_ms;
use crate::hex;
use crate::hex::decimal_text;
use crate::ids::BranchId;
use crate::kv::MemoryKv;
use crate::merge_lock;
use crate::merge_lock::merge_lock_holder;
use crate::path_lease;
use crate::path_lease::{LeaseError, PathLeaseManager, SessionId, SpeculativePathTracker};
use crate::sorting;
use crate::sorting::{insert_sorted, sort_texts};
use crate::table;
use crate::table::Table;
use crate::text;
use crate::text::{append_text, chars_of, copy_texts, cut, owned, text_of, texts_contain};
use vstd::prelude::*;

verus! {

/// Why a patch operation was refused.
#[derive(Debug, Clone, Copy, PartialEq, Eq, Structural)]
pub enum OptimisticPatchError {
    /// A path is leased to another session.
    Lease(LeaseError),
    /// A merge holds the branch.
    MergeLocked,
    /// There is no open patch of this id.
    UnknownPatch(u64),
    /// The patch belongs to another session.
    SessionMismatch(u64),
    /// A newer open patch touches the same path.
    Superseded { patch_id: u64, newer_patch_id: u64 },
}

impl OptimisticPatchError {
    /// The message for a person.
    pub fn message(&self) -> (r: String)
        ensures
            r@ == (match self {
                OptimisticPatchError::Lease(e) => path_lease::lease_message(*e),
                OptimisticPatchError::MergeLocked => "423 Locked \u{2014} merge preflight in progress"@,
                OptimisticPatchError::UnknownPatch(id) => "unknown patch "@ + hex::decimal(
                    *id as nat,
                ),
                OptimisticPatchError::SessionMismatch(id) => "session mismatch for patch "@
                    + hex::decimal(*id as nat),
                OptimisticPatchError::Superseded { patch_id, newer_patch_id } =>
                    "409 conflict \u{2014} patch "@ + hex::decimal(*patch_id as nat)
                        + " superseded by newer open patch "@ + hex::decimal(
                        *newer_patch_id as nat,
                    ),
            }),
    {
        match self {
            OptimisticPatchError::Lease(e) => e.message(),
            OptimisticPatchError::MergeLocked => owned(
                "423 Locked \u{2014} merge preflight in progress",
            ),
            OptimisticPatchError::UnknownPatch(id) => {
                let mut out = owned("unknown patch ");
                append_text(&mut out, decimal_text(*id).as_str());
                out
            },
            OptimisticPatchError::SessionMismatch(id) => {
                let mut out = owned("session mismatch for patch ");
                append_text(&mut out, decimal_text(*id).as_str());
                out
            },
            OptimisticPatchError::Superseded { patch_id, newer_patch_id } => {
                let mut out = owned("409 conflict \u{2014} patch ");
                append_text(&mut out, decimal_text(*patch_id).as_str());
                append_text(&mut out, " superseded by newer open patch ");
                append_text(&mut out, decimal_text(*newer_patch_id).as_str());
                out
            },
        }
    }
}

/// An open patch.
struct PatchRecord {
    session: SessionId,
    paths: Vec<String>,
    created_ms: u64,
}

/// What an open patch holds.
pub struct PatchView {
    pub session: SessionId,
    pub paths: Seq<Seq<char>>,
    pub created_ms: u64,
}

impl PatchRecord {
    spec fn view(&self) -> PatchView {
        PatchView {
            session: self.session,
            paths: text::texts(self.paths@),
            created_ms: self.created_ms,
        }
    }
}

/// Open patches, the leases they hold and the paths they touch.
pub struct OptimisticPatcher {
    leases: PathLeaseManager,
    spec_paths: SpeculativePathTracker,
    patches: Table<u64, PatchRecord>,
    next_id: u64,
}

/// How often `q` is among `paths`.
pub open spec fn times(paths: Seq<Seq<char>>, q: Seq<char>) -> nat {
    paths.to_multiset().count(q)
}

/// How often the open patches touch `q`.
pub open spec fn touches(rows: Seq<(u64, PatchView)>, q: Seq<char>) -> nat
    decreases rows.len(),
{
    if rows.len() == 0 {
        0
    } else {
        touches(rows.drop_last(), q) + times(rows.last().1.paths, q)
    }
}

/// The absolute path of `rel_path` under `repo_root`.
pub open spec fn absolute(repo_root: Seq<char>, rel_path: Seq<char>) -> Seq<char> {
    trim_slashes(repo_root) + seq!['/'] + rel_path
}

/// `s` without trailing slashes.
pub open spec fn trim_slashes(s: Seq<char>) -> Seq<char>
    decreases s.len(),
{
    if s.len() > 0 && s.last() == '/' {
        trim_slashes(s.drop_last())
    } else {
        s
    }
}

/// Builds the absolute path of `rel_path` under `repo_root`.
pub fn absolute_path(repo_root: &str, rel_path: &str) -> (r: String)
    ensures
        r@ == absolute(repo_root@, rel_path@),
{
    let cs = chars_of(repo_root);
    let mut n: usize = cs.len();
    assert(cs@.take(n as int) =~= cs@);
    while n > 0 && cs[n - 1] == '/'
        invariant
            n <= cs.len(),
            trim_slashes(cs@) == trim_slashes(cs@.take(n as int)),
        decreases n,
    {
        assert(cs@.take(n as int).drop_last() =~= cs@.take(n - 1));
        n = n - 1;
    }
    assert(cs@.take(n as int) =~= cs@.subrange(0, n as int));
    let mut out = text_of(&cut(&cs, 0, n));
    out.push('/');
    append_text(&mut out, rel_path);
    assert(out@ =~= absolute(repo_root@, rel_path@));
    out
}

/// A patch touches `rel_path`, by its relative or its absolute name.
pub open spec fn patch_touches(p: PatchView, repo_root: Seq<char>, rel_path: Seq<char>) -> bool {
    p.paths.contains(rel_path) || p.paths.contains(absolute(repo_root, rel_path))
}

impl OptimisticPatcher {
    /// The rows of open patches, in the order in which they were opened.
    pub closed spec fn rows(&self) -> Seq<(u64, PatchView)> {
        self.patches.rows().map_values(|e: (u64, PatchRecord)| (e.0, e.1.view()))
    }

    /// The open patches.
    pub closed spec fn open(&self) -> Map<u64, PatchView> {
        self.patches@.map_values(|p: PatchRecord| p.view())
    }

    /// Which session has which path.
    pub closed spec fn leased(&self) -> Map<Seq<char>, SessionId> {
        self.leases@
    }

    /// How many open patches touch each path.
    pub closed spec fn counts(&self) -> Map<Seq<char>, u32> {
        self.spec_paths@
    }

    /// The id of the next patch.
    pub closed spec fn next(&self) -> u64 {
        self.next_id
    }

    /// The rows are the open patches, each once.
    pub open spec fn tied(&self) -> bool {
        &&& table::names_differ(self.rows())
        &&& self.open() == table::map_of(self.rows())
    }

    /// The counts are those of the open patches, and no open patch has an id yet to be given.
    pub open spec fn coherent(&self) -> bool {
        &&& path_lease::counts_positive(self.counts())
        &&& forall|q: Seq<char>| #[trigger] path_lease::count_of(self.counts(), q) == touches(self.rows(), q)
        &&& forall|id: u64| #[trigger] self.open().contains_key(id) ==> id < self.next()
    }

    /// A patch of a session was opened on some paths: the paths are leased to the session and counted
    /// once more each time they are named, and the patch lists them in order.
    pub open spec fn patch_opened(
        self,
        after: Self,
        session: SessionId,
        asked: Seq<Seq<char>>,
        id: u64,
    ) -> bool {
        let p = after.open()[id];
        &&& id == self.next()
        &&& after.next() == id + 1
        &&& forall|q: Seq<char>| #[trigger]
            path_lease::leased_to(after.leased(), q) == (if asked.contains(q) {
                Some(session)
            } else {
                path_lease::leased_to(self.leased(), q)
            })
        &&& forall|q: Seq<char>| #[trigger]
            path_lease::count_of(after.counts(), q) == path_lease::count_of(self.counts(), q) + times(
                asked,
                q,
            )
        &&& p.session == session
        &&& sorting::texts_sorted(p.paths)
        &&& p.paths.to_multiset() == asked.to_multiset()
        &&& after.open() == self.open().insert(id, p)
    }

    /// A session was refused a patch: of the paths in order, the `k`-th is the first that another
    /// session holds. What stands before it is leased to no one now.
    pub open spec fn refused_at(
        self,
        after: Self,
        session: SessionId,
        sorted: Seq<Seq<char>>,
        k: int,
        holder: SessionId,
    ) -> bool {
        &&& sorting::texts_sorted(sorted)
        &&& 0 <= k < sorted.len()
        &&& path_lease::leased_to(self.leased(), sorted[k]) == Some(holder)
        &&& holder != session
        &&& forall|i: int|
            0 <= i < k ==> !path_lease::leased_away(self.leased(), #[trigger] sorted[i], session)
        &&& forall|q: Seq<char>| #[trigger]
            path_lease::leased_to(after.leased(), q) == (if sorted.take(k).contains(q) {
                None
            } else {
                path_lease::leased_to(self.leased(), q)
            })
    }

    /// A session was refused a patch on some paths because another holds one of them.
    pub open spec fn lease_refused(
        self,
        after: Self,
        session: SessionId,
        asked: Seq<Seq<char>>,
        holder: SessionId,
    ) -> bool {
        exists|sorted: Seq<Seq<char>>, k: int| #[trigger]
            self.refused_at(after, session, sorted, k, holder) && sorted.to_multiset()
                == asked.to_multiset()
    }

    /// A patch of a session was closed: its paths are counted once less each time it lists them, and
    /// those that are leased to the session are given back.
    pub open spec fn patch_closed(self, after: Self, patch_id: u64, session: SessionId) -> bool {
        let p = self.open()[patch_id];
        &&& self.open().contains_key(patch_id)
        &&& p.session == session
        &&& after.open() == self.open().remove(patch_id)
        &&& exists|i: int|
            {
                &&& 0 <= i < self.rows().len()
                &&& self.rows()[i].0 == patch_id
                &&& after.rows() == #[trigger] self.rows().remove(i)
            }
        &&& after.next() == self.next()
        &&& forall|q: Seq<char>| #[trigger]
            path_lease::leased_to(after.leased(), q) == (if p.paths.contains(q)
                && path_lease::leased_to(self.leased(), q) == Some(session) {
                None
            } else {
                path_lease::leased_to(self.leased(), q)
            })
        &&& forall|q: Seq<char>| #[trigger]
            path_lease::count_of(after.counts(), q) == (if path_lease::count_of(self.counts(), q)
                >= times(p.paths, q) {
                (path_lease::count_of(self.counts(), q) - times(p.paths, q)) as nat
            } else {
                0
            })
    }

    /// Nothing changed.
    pub open spec fn same_as(&self, other: &Self) -> bool {
        &&& self.rows() == other.rows()
        &&& self.open() == other.open()
        &&& self.leased() == other.leased()
        &&& self.counts() == other.counts()
        &&& self.next() == other.next()
    }

    /// A patcher without open patches.
    pub fn new(leases: PathLeaseManager, spec_paths: SpeculativePathTracker) -> (r: Self)
        ensures
            r.rows() == Seq::<(u64, PatchView)>::empty(),
            r.open() == Map::<u64, PatchView>::empty(),
            r.leased() == leases@,
            r.counts() == spec_paths@,
            r.next() == 1,
            r.tied(),
            spec_paths@ == Map::<Seq<char>, u32>::empty() ==> r.coherent(),
    {
        let r = OptimisticPatcher { leases, spec_paths, patches: Table::new(), next_id: 1 };
        proof {
            assert(r.rows() =~= Seq::<(u64, PatchView)>::empty());
            assert(r.open() =~= Map::<u64, PatchView>::empty());
        }
        r
    }

    /// The paths that open patches touch.
    pub fn spec_tracker(&self) -> (r: &SpeculativePathTracker)
        ensures
            r@ == self.counts(),
    {
        &self.spec_paths
    }

    /// The leases.
    pub fn leases(&self) -> (r: &PathLeaseManager)
        ensures
            r@ == self.leased(),
    {
        &self.leases
    }

    /// Takes every path for the session, or none of them.
    fn take_leases(&mut self, session: SessionId, paths: &Vec<String>) -> (r: Result<
        (),
        LeaseError,
    >)
        ensures
            r is Ok <==> forall|i: int|
                0 <= i < paths@.len() ==> !path_lease::leased_away(
                    old(self).leased(),
                    #[trigger] paths@[i]@,
                    session,
                ),
            r is Ok ==> forall|q: Seq<char>| #[trigger]
                path_lease::leased_to(final(self).leased(), q) == (if text::texts(paths@).contains(q) {
                    Some(session)
                } else {
                    path_lease::leased_to(old(self).leased(), q)
                }),
            r matches Err(LeaseError::Conflict { holder }) ==> exists|k: int|
                {
                    &&& 0 <= k < paths@.len()
                    &&& path_lease::leased_to(old(self).leased(), #[trigger] paths@[k]@) == Some(holder)
                    &&& path_lease::leased_away(old(self).leased(), paths@[k]@, session)
                    &&& forall|i: int|
                        0 <= i < k ==> !path_lease::leased_away(
                            old(self).leased(),
                            #[trigger] paths@[i]@,
                            session,
                        )
                    &&& forall|q: Seq<char>| #[trigger]
                        path_lease::leased_to(final(self).leased(), q) == (if text::texts(paths@).take(k).contains(
                            q,
                        ) {
                            None
                        } else {
                            path_lease::leased_to(old(self).leased(), q)
                        })
                },
            final(self).rows() == old(self).rows(),
            final(self).open() == old(self).open(),
            final(self).counts() == old(self).counts(),
            final(self).next() == old(self).next(),
    {
        let ghost m0 = self.leased();
        let mut k: usize = 0;
        while k < paths.len()
            invariant
                k <= paths.len(),
                m0 == old(self).leased(),
                self.patches == old(self).patches,
                self.spec_paths == old(self).spec_paths,
                self.next_id == old(self).next_id,
                forall|i: int|
                    0 <= i < k ==> !path_lease::leased_away(m0, #[trigger] paths@[i]@, session),
                forall|q: Seq<char>| #[trigger]
                    path_lease::leased_to(self.leased(), q) == (if text::texts(paths@).take(k as int).contains(q) {
                        Some(session)
                    } else {
                        path_lease::leased_to(m0, q)
                    }),
            decreases paths.len() - k,
        {
            let ghost mk = self.leased();
            let ghost pk = paths@[k as int]@;
            let ghost front = text::texts(paths@).take(k as int);
            assert(path_lease::leased_to(mk, pk) == (if front.contains(pk) {
                Some(session)
            } else {
                path_lease::leased_to(m0, pk)
            }));
            proof {
                if front.contains(pk) {
                    let i = choose|i: int| 0 <= i < front.len() && front[i] == pk;
                    assert(paths@[i]@ == pk);
                }
            }
            match self.leases.acquire(paths[k].as_str(), session) {
                Ok(()) => {
                    proof {
                        let next = text::texts(paths@).take(k + 1);
                        assert(next =~= front.push(pk));
                        assert forall|q: Seq<char>| #[trigger]
                            path_lease::leased_to(self.leased(), q) == (if next.contains(q) {
                                Some(session)
                            } else {
                                path_lease::leased_to(m0, q)
                            }) by {
                            assert(path_lease::leased_to(mk, q) == (if front.contains(q) {
                                Some(session)
                            } else {
                                path_lease::leased_to(m0, q)
                            }));
                            lemma_push_contains(front, pk, q);
                        }
                    }
                },
                Err(e) => {
                    self.give_back(session, paths, k);
                    proof {
                        assert forall|q: Seq<char>| #[trigger]
                            path_lease::leased_to(self.leased(), q) == (if front.contains(q) {
                                None
                            } else {
                                path_lease::leased_to(m0, q)
                            }) by {
                            assert(path_lease::leased_to(mk, q) == (if front.contains(q) {
                                Some(session)
                            } else {
                                path_lease::leased_to(m0, q)
                            }));
                        }
                        assert(path_lease::leased_away(m0, paths@[k as int]@, session));
                    }
                    return Err(e);
                },
            }
            k = k + 1;
        }
        assert(text::texts(paths@).take(paths@.len() as int) =~= text::texts(paths@));
        Ok(())
    }

    /// Gives the first `n` of the paths back.
    fn give_back(&mut self, session: SessionId, paths: &Vec<String>, n: usize)
        requires
            n <= paths.len(),
        ensures
            forall|q: Seq<char>| #[trigger]
                path_lease::leased_to(final(self).leased(), q) == (if text::texts(paths@).take(n as int).contains(q)
                    && path_lease::leased_to(old(self).leased(), q) == Some(session) {
                    None
                } else {
                    path_lease::leased_to(old(self).leased(), q)
                }),
            final(self).rows() == old(self).rows(),
            final(self).open() == old(self).open(),
            final(self).counts() == old(self).counts(),
            final(self).next() == old(self).next(),
    {
        let ghost m0 = self.leased();
        let mut i: usize = 0;
        while i < n
            invariant
                i <= n <= paths.len(),
                m0 == old(self).leased(),
                self.patches == old(self).patches,
                self.spec_paths == old(self).spec_paths,
                self.next_id == old(self).next_id,
                forall|q: Seq<char>| #[trigger]
                    path_lease::leased_to(self.leased(), q) == (if text::texts(paths@).take(i as int).contains(q)
                        && path_lease::leased_to(m0, q) == Some(session) {
                        None
                    } else {
                        path_lease::leased_to(m0, q)
                    }),
            decreases n - i,
        {
            let ghost mi = self.leased();
            let ghost front = text::texts(paths@).take(i as int);
            let ghost pi = paths@[i as int]@;
            self.leases.release(paths[i].as_str(), session);
            proof {
                let next = text::texts(paths@).take(i + 1);
                assert(next =~= front.push(pi));
                assert forall|q: Seq<char>| #[trigger]
                    path_lease::leased_to(self.leased(), q) == (if next.contains(q) && path_lease::leased_to(m0, q) == Some(
                        session,
                    ) {
                        None
                    } else {
                        path_lease::leased_to(m0, q)
                    }) by {
                    assert(path_lease::leased_to(mi, q) == (if front.contains(q) && path_lease::leased_to(m0, q) == Some(
                        session,
                    ) {
                        None
                    } else {
                        path_lease::leased_to(m0, q)
                    }));
                    lemma_push_contains(front, pi, q);
                }
            }
            i = i + 1;
        }
    }

    /// Counts one more patch on each of the paths.
    fn count_paths(&mut self, paths: &Vec<String>)
        requires
            forall|q: Seq<char>| #[trigger]
                path_lease::count_of(old(self).counts(), q) + times(text::texts(paths@), q) <= u32::MAX,
        ensures
            forall|q: Seq<char>| #[trigger]
                path_lease::count_of(final(self).counts(), q) == path_lease::count_of(old(self).counts(), q) + times(
                    text::texts(paths@),
                    q,
                ),
            path_lease::counts_positive(old(self).counts()) ==> path_lease::counts_positive(final(self).counts()),
            final(self).rows() == old(self).rows(),
            final(self).open() == old(self).open(),
            final(self).leased() == old(self).leased(),
            final(self).next() == old(self).next(),
    {
        let ghost c0 = self.counts();
        let ghost all = text::texts(paths@);
        let mut i: usize = 0;
        proof {
            assert(all.take(0) =~= Seq::<Seq<char>>::empty());
            lemma_times_empty();
        }
        while i < paths.len()
            invariant
                i <= paths.len(),
                c0 == old(self).counts(),
                all == text::texts(paths@),
                self.patches == old(self).patches,
                self.leases == old(self).leases,
                self.next_id == old(self).next_id,
                forall|q: Seq<char>| #[trigger] path_lease::count_of(c0, q) + times(all, q) <= u32::MAX,
                path_lease::counts_positive(c0) ==> path_lease::counts_positive(self.counts()),
                forall|q: Seq<char>| #[trigger]
                    path_lease::count_of(self.counts(), q) == path_lease::count_of(c0, q) + times(all.take(i as int), q),
            decreases paths.len() - i,
        {
            let ghost ci = self.counts();
            let ghost pi = all[i as int];
            proof {
                assert(all.take(i + 1) =~= all.take(i as int).push(pi));
                assert forall|q: Seq<char>| times(all.take(i + 1), q) == times(
                    all.take(i as int),
                    q,
                ) + (if q == pi {
                    1nat
                } else {
                    0
                }) by {
                    lemma_times_push(all.take(i as int), pi, q);
                }
                lemma_times_prefix(all, i + 1, pi);
                assert(path_lease::count_of(c0, pi) + times(all, pi) <= u32::MAX);
                assert(path_lease::count_of(ci, pi) == path_lease::count_of(c0, pi) + times(all.take(i as int), pi));
            }
            self.spec_paths.register(paths[i].as_str());
            proof {
                assert forall|q: Seq<char>| #[trigger]
                    path_lease::count_of(self.counts(), q) == path_lease::count_of(c0, q) + times(all.take(i + 1), q) by {
                    assert(path_lease::count_of(ci, q) == path_lease::count_of(c0, q) + times(all.take(i as int), q));
                }
            }
            i = i + 1;
        }
        assert(all.take(all.len() as int) =~= all);
    }

    /// Counts one patch less on each of the paths.
    fn uncount_paths(&mut self, paths: &Vec<String>)
        ensures
            forall|q: Seq<char>| #[trigger]
                path_lease::count_of(final(self).counts(), q) == (if path_lease::count_of(old(self).counts(), q) >= times(
                    text::texts(paths@),
                    q,
                ) {
                    (path_lease::count_of(old(self).counts(), q) - times(text::texts(paths@), q)) as nat
                } else {
                    0
                }),
            path_lease::counts_positive(old(self).counts()) ==> path_lease::counts_positive(final(self).counts()),
            final(self).rows() == old(self).rows(),
            final(self).open() == old(self).open(),
            final(self).leased() == old(self).leased(),
            final(self).next() == old(self).next(),
    {
        let ghost c0 = self.counts();
        let ghost all = text::texts(paths@);
        let mut i: usize = 0;
        proof {
            assert(all.take(0) =~= Seq::<Seq<char>>::empty());
            lemma_times_empty();
        }
        while i < paths.len()
            invariant
                i <= paths.len(),
                c0 == old(self).counts(),
                all == text::texts(paths@),
                self.patches == old(self).patches,
                self.leases == old(self).leases,
                self.next_id == old(self).next_id,
                path_lease::counts_positive(c0) ==> path_lease::counts_positive(self.counts()),
                forall|q: Seq<char>| #[trigger]
                    path_lease::count_of(self.counts(), q) == (if path_lease::count_of(c0, q) >= times(
                        all.take(i as int),
                        q,
                    ) {
                        (path_lease::count_of(c0, q) - times(all.take(i as int), q)) as nat
                    } else {
                        0
                    }),
            decreases paths.len() - i,
        {
            let ghost ci = self.counts();
            let ghost pi = all[i as int];
            self.spec_paths.unregister(paths[i].as_str());
            proof {
                assert(all.take(i + 1) =~= all.take(i as int).push(pi));
                assert forall|q: Seq<char>| #[trigger]
                    path_lease::count_of(self.counts(), q) == (if path_lease::count_of(c0, q) >= times(
                        all.take(i + 1),
                        q,
                    ) {
                        (path_lease::count_of(c0, q) - times(all.take(i + 1), q)) as nat
                    } else {
                        0
                    }) by {
                    lemma_times_push(all.take(i as int), pi, q);
                    assert(path_lease::count_of(ci, q) == (if path_lease::count_of(c0, q) >= times(all.take(i as int), q) {
                        (path_lease::count_of(c0, q) - times(all.take(i as int), q)) as nat
                    } else {
                        0
                    }));
                }
            }
            i = i + 1;
        }
        assert(all.take(all.len() as int) =~= all);
    }
}

/// What a longer list contains.
proof fn lemma_push_contains(s: Seq<Seq<char>>, a: Seq<char>, q: Seq<char>)
    ensures
        s.push(a).contains(q) <==> s.contains(q) || q == a,
{
    if s.contains(q) {
        let i = choose|i: int| 0 <= i < s.len() && s[i] == q;
        assert(s.push(a)[i] == q);
    }
    if q == a {
        assert(s.push(a)[s.len() as int] == a);
    }
}

/// Nothing is among no paths.
proof fn lemma_times_empty()
    ensures
        forall|q: Seq<char>| #[trigger] times(Seq::<Seq<char>>::empty(), q) == 0,
{
    broadcast use vstd::multiset::group_multiset_axioms;

    let e = Seq::<Seq<char>>::empty();
    assert forall|q: Seq<char>| #[trigger] times(e, q) == 0 by {
        e.to_multiset_ensures();
        assert(!e.contains(q));
    }
}

/// One more path counts once more.
proof fn lemma_times_push(s: Seq<Seq<char>>, a: Seq<char>, q: Seq<char>)
    ensures
        times(s.push(a), q) == times(s, q) + (if q == a {
            1nat
        } else {
            0
        }),
{
    broadcast use vstd::multiset::group_multiset_axioms;

    vstd::seq_lib::to_multiset_build(s, a);
}

/// The front of a list counts no more than the list.
proof fn lemma_times_prefix(s: Seq<Seq<char>>, k: int, q: Seq<char>)
    requires
        0 <= k <= s.len(),
    ensures
        times(s.take(k), q) <= times(s, q),
    decreases s.len() - k,
{
    if k < s.len() {
        assert(s.take(k + 1) =~= s.take(k).push(s[k]));
        lemma_times_push(s.take(k), s[k], q);
        lemma_times_prefix(s, k + 1, q);
    } else {
        assert(s.take(k) =~= s);
    }
}

/// Taking one row out takes its touches out.
proof fn lemma_touches_remove(rows: Seq<(u64, PatchView)>, i: int, q: Seq<char>)
    requires
        0 <= i < rows.len(),
    ensures
        touches(rows, q) == touches(rows.remove(i), q) + times(rows[i].1.paths, q),
    decreases rows.len(),
{
    if i == rows.len() - 1 {
        assert(rows.remove(i) =~= rows.drop_last());
    } else {
        lemma_touches_remove(rows.drop_last(), i, q);
        assert(rows.remove(i).drop_last() =~= rows.drop_last().remove(i));
        assert(rows.remove(i).last() == rows.last());
    }
}

/// A list and its sorting count alike.
proof fn lemma_sorted_same(a: Seq<Seq<char>>, b: Seq<Seq<char>>, q: Seq<char>)
    requires
        a.to_multiset() == b.to_multiset(),
    ensures
        times(a, q) == times(b, q),
        a.contains(q) <==> b.contains(q),
{
    a.to_multiset_ensures();
    b.to_multiset_ensures();
    assert(a.contains(q) <==> a.to_multiset().count(q) > 0);
    assert(b.contains(q) <==> b.to_multiset().count(q) > 0);
}

impl OptimisticPatcher {
    /// The branch is held by a merge.
    pub open spec fn held(merge_ctx: Option<(&MemoryKv, BranchId)>) -> bool {
        merge_ctx matches Some((kv, branch)) && merge_lock::lock_holder(kv@, branch) is Some
    }

    /// Opens a patch on `paths` at `now_ms`.
    ///
    /// It is refused while a merge holds the branch, and when another session has one of the
    /// paths; the paths are tried in order, and those taken before the refusal are given back.
    pub fn apply_speculative_at(
        &mut self,
        session: SessionId,
        paths: Vec<String>,
        merge_ctx: Option<(&MemoryKv, BranchId)>,
        now_ms: u64,
    ) -> (r: Result<u64, OptimisticPatchError>)
        requires
            old(self).next() < u64::MAX,
            forall|q: Seq<char>| #[trigger]
                path_lease::count_of(old(self).counts(), q) + times(text::texts(paths@), q) <= u32::MAX,
        ensures
            final(self).tied(),
            old(self).coherent() ==> final(self).coherent(),
            r == Err::<u64, OptimisticPatchError>(OptimisticPatchError::MergeLocked)
                <==> Self::held(merge_ctx),
            Self::held(merge_ctx) ==> final(self).same_as(old(self)),
            r is Ok <==> !Self::held(merge_ctx) && forall|q: Seq<char>|
                #![trigger path_lease::leased_away(old(self).leased(), q, session)]
                text::texts(paths@).contains(q) ==> !path_lease::leased_away(old(self).leased(), q, session),
            r matches Ok(id) ==> (*old(self)).patch_opened(
                *final(self),
                session,
                text::texts(paths@),
                id,
            ) && final(self).open()[id].created_ms == now_ms,
            r matches Err(e) ==> {
                &&& final(self).rows() == old(self).rows()
                &&& final(self).open() == old(self).open()
                &&& final(self).counts() == old(self).counts()
                &&& final(self).next() == old(self).next()
            },
            r matches Err(e) ==> e is MergeLocked || e is Lease,
            r matches Err(OptimisticPatchError::Lease(LeaseError::Conflict { holder })) ==> (*old(
                self,
            )).lease_refused(*final(self), session, text::texts(paths@), holder),
    {
        let ghost asked = text::texts(paths@);
        let ghost before = *self;
        let _ = self.patches.len();
        proof {
            lemma_tied(before);
        }
        if let Some((kv, branch)) = merge_ctx {
            if merge_lock_holder(kv, branch).is_some() {
                return Err(OptimisticPatchError::MergeLocked);
            }
        }
        let sorted = sort_texts(paths);
        let ghost sv = text::texts(sorted@);
        proof {
            assert forall|q: Seq<char>| #[trigger] times(sv, q) == times(asked, q) by {
                lemma_sorted_same(sv, asked, q);
            }
            assert forall|q: Seq<char>| #[trigger] sv.contains(q) == asked.contains(q) by {
                lemma_sorted_same(sv, asked, q);
            }
            assert forall|q: Seq<char>| #[trigger]
                path_lease::count_of(self.counts(), q) + times(sv, q) <= u32::MAX by {
                assert(path_lease::count_of(self.counts(), q) + times(asked, q) <= u32::MAX);
            }
        }
        match self.take_leases(session, &sorted) {
            Err(e) => {
                proof {
                    let LeaseError::Conflict { holder } = e;
                    let k = choose|k: int|
                        {
                            &&& 0 <= k < sorted@.len()
                            &&& path_lease::leased_to(before.leased(), #[trigger] sorted@[k]@) == Some(holder)
                            &&& path_lease::leased_away(before.leased(), sorted@[k]@, session)
                            &&& forall|i: int|
                                0 <= i < k ==> !path_lease::leased_away(
                                    before.leased(),
                                    #[trigger] sorted@[i]@,
                                    session,
                                )
                            &&& forall|q: Seq<char>| #[trigger]
                                path_lease::leased_to(self.leased(), q) == (if text::texts(sorted@).take(k).contains(
                                    q,
                                ) {
                                    None
                                } else {
                                    path_lease::leased_to(before.leased(), q)
                                })
                        };
                    assert(sv[k] == sorted@[k]@);
                    assert(sv.contains(sv[k]));
                    assert(path_lease::leased_away(before.leased(), sv[k], session));
                    assert forall|i: int| 0 <= i < k implies !path_lease::leased_away(
                        before.leased(),
                        #[trigger] sv[i],
                        session,
                    ) by {
                        assert(sv[i] == sorted@[i]@);
                    }
                    assert(before.refused_at(*self, session, sv, k, holder));
                }
                return Err(OptimisticPatchError::Lease(e));
            },
            Ok(()) => {},
        }
        proof {
            assert forall|q: Seq<char>| asked.contains(q) implies !path_lease::leased_away(
                before.leased(),
                q,
                session,
            ) by {
                assert(sv.contains(q));
                let i = choose|i: int| 0 <= i < sv.len() && sv[i] == q;
                assert(!path_lease::leased_away(before.leased(), sorted@[i]@, session));
            }
        }
        let ghost taken = self.leased();
        self.count_paths(&sorted);
        let ghost counted = self.counts();
        let id: u64 = self.next_id;
        self.next_id = id + 1;
        let rec = PatchRecord { session, paths: sorted, created_ms: now_ms };
        let ghost pv = rec.view();
        self.patches.insert(id, rec);
        let _ = self.patches.len();
        proof {
            lemma_tied(*self);
            assert(self.leased() == taken);
            assert(self.counts() == counted);
            assert forall|q: Seq<char>| #[trigger]
                path_lease::leased_to(self.leased(), q) == (if asked.contains(q) {
                    Some(session)
                } else {
                    path_lease::leased_to(before.leased(), q)
                }) by {
                assert(sv.contains(q) == asked.contains(q));
            }
            assert forall|q: Seq<char>| #[trigger]
                path_lease::count_of(self.counts(), q) == path_lease::count_of(before.counts(), q) + times(asked, q) by {
                assert(path_lease::count_of(counted, q) == path_lease::count_of(before.counts(), q)
                    + times(sv, q));
                assert(times(sv, q) == times(asked, q));
            }
            assert(self.open() =~= before.open().insert(id, pv));
            assert(sorting::texts_sorted(sv));
            assert(pv.paths == sv);
            assert(before.patch_opened(*self, session, asked, id));
            if before.coherent() {
                assert(!before.open().contains_key(id));
                assert(self.rows() =~= before.rows().push((id, pv)));
                assert forall|q: Seq<char>| #[trigger]
                    path_lease::count_of(self.counts(), q) == touches(self.rows(), q) by {
                    assert(self.rows().drop_last() =~= before.rows());
                    assert(path_lease::count_of(before.counts(), q) == touches(before.rows(), q));
                    assert(times(sv, q) == times(asked, q));
                }
                assert forall|i: u64| #[trigger] self.open().contains_key(i) implies i
                    < self.next() by {
                    if i != id {
                        assert(before.open().contains_key(i));
                    }
                }
            }
        }
        Ok(id)
    }
}

impl OptimisticPatcher {
    /// Opens a patch on `paths` now.
    pub fn apply_speculative(
        &mut self,
        session: SessionId,
        paths: Vec<String>,
        merge_ctx: Option<(&MemoryKv, BranchId)>,
    ) -> (r: Result<u64, OptimisticPatchError>)
        requires
            old(self).next() < u64::MAX,
            forall|q: Seq<char>| #[trigger]
                path_lease::count_of(old(self).counts(), q) + times(text::texts(paths@), q) <= u32::MAX,
        ensures
            final(self).tied(),
            old(self).coherent() ==> final(self).coherent(),
            r == Err::<u64, OptimisticPatchError>(OptimisticPatchError::MergeLocked)
                <==> Self::held(merge_ctx),
            Self::held(merge_ctx) ==> final(self).same_as(old(self)),
            r is Ok <==> !Self::held(merge_ctx) && forall|q: Seq<char>|
                #![trigger path_lease::leased_away(old(self).leased(), q, session)]
                text::texts(paths@).contains(q) ==> !path_lease::leased_away(old(self).leased(), q, session),
            r matches Ok(id) ==> (*old(self)).patch_opened(
                *final(self),
                session,
                text::texts(paths@),
                id,
            ),
            r matches Err(e) ==> {
                &&& final(self).rows() == old(self).rows()
                &&& final(self).open() == old(self).open()
                &&& final(self).counts() == old(self).counts()
                &&& final(self).next() == old(self).next()
            },
            r matches Err(e) ==> e is MergeLocked || e is Lease,
            r matches Err(OptimisticPatchError::Lease(LeaseError::Conflict { holder })) ==> (*old(
                self,
            )).lease_refused(*final(self), session, text::texts(paths@), holder),
    {
        self.apply_speculative_at(session, paths, merge_ctx, now_epoch_ms())
    }

    /// Closes a patch of the session: its paths are counted once less and given back.
    pub fn promote(&mut self, patch_id: u64, session: SessionId) -> (r: Result<
        Vec<String>,
        OptimisticPatchError,
    >)
        ensures
            final(self).tied(),
            old(self).coherent() ==> final(self).coherent(),
            r matches Err(e) ==> final(self).same_as(old(self)),
            match r {
                Err(e) => if old(self).open().contains_key(patch_id) {
                    old(self).open()[patch_id].session != session && e
                        == OptimisticPatchError::SessionMismatch(patch_id)
                } else {
                    e == OptimisticPatchError::UnknownPatch(patch_id)
                },
                Ok(paths) => text::texts(paths@) == old(self).open()[patch_id].paths && (*old(
                    self,
                )).patch_closed(*final(self), patch_id, session),
            },
    {
        let ghost before = *self;
        let _ = self.patches.len();
        proof {
            lemma_tied(before);
        }
        match self.patches.get(&patch_id) {
            None => {
                return Err(OptimisticPatchError::UnknownPatch(patch_id));
            },
            Some(rec) => {
                if rec.session != session {
                    return Err(OptimisticPatchError::SessionMismatch(patch_id));
                }
            },
        }
        let removed = self.patches.remove(&patch_id);
        let rec = removed.unwrap();
        let ghost pv = before.open()[patch_id];
        assert(pv == rec.view());
        proof {
            assert(self.open() =~= before.open().remove(patch_id));
            let t = before.patches.rows();
            let i = choose|i: int|
                {
                    &&& 0 <= i < t.len()
                    &&& t[i].0 == patch_id
                    &&& self.patches.rows() == #[trigger] t.remove(i)
                };
            let rows = before.rows();
            assert(rows[i].0 == patch_id);
            assert(self.rows() =~= rows.remove(i));
            assert(before.patches@.contains_pair(t[i].0, t[i].1));
            assert(rows[i].1 == pv);
            assert forall|q: Seq<char>| touches(rows, q) == touches(self.rows(), q) + times(
                pv.paths,
                q,
            ) by {
                lemma_touches_remove(rows, i, q);
            }
        }
        let ghost mid = *self;
        self.uncount_paths(&rec.paths);
        let ghost counted = self.counts();
        let len = rec.paths.len();
        self.give_back(session, &rec.paths, len);
        let _ = self.patches.len();
        proof {
            lemma_tied(*self);
            assert(text::texts(rec.paths@).take(len as int) =~= pv.paths);
            assert(self.counts() == counted);
            if before.coherent() {
                assert forall|q: Seq<char>| #[trigger]
                    path_lease::count_of(self.counts(), q) == touches(self.rows(), q) by {
                    assert(path_lease::count_of(before.counts(), q) == touches(before.rows(), q));
                    assert(touches(before.rows(), q) == touches(mid.rows(), q) + times(
                        pv.paths,
                        q,
                    ));
                    assert(path_lease::count_of(counted, q) == (if path_lease::count_of(before.counts(), q) >= times(
                        pv.paths,
                        q,
                    ) {
                        (path_lease::count_of(before.counts(), q) - times(pv.paths, q)) as nat
                    } else {
                        0
                    }));
                }
                assert forall|i: u64| #[trigger] self.open().contains_key(i) implies i
                    < self.next() by {
                    assert(before.open().contains_key(i));
                }
            }
        }
        Ok(rec.paths)
    }

    /// Closes a patch of the session whose content is not kept.
    pub fn revert(&mut self, patch_id: u64, session: SessionId) -> (r: Result<
        (),
        OptimisticPatchError,
    >)
        ensures
            final(self).tied(),
            old(self).coherent() ==> final(self).coherent(),
            r matches Err(e) ==> final(self).same_as(old(self)),
            match r {
                Err(e) => if old(self).open().contains_key(patch_id) {
                    old(self).open()[patch_id].session != session && e
                        == OptimisticPatchError::SessionMismatch(patch_id)
                } else {
                    e == OptimisticPatchError::UnknownPatch(patch_id)
                },
                Ok(()) => (*old(self)).patch_closed(*final(self), patch_id, session),
            },
    {
        match self.promote(patch_id, session) {
            Ok(paths) => Ok(()),
            Err(e) => Err(e),
        }
    }

    /// The paths of an open patch.
    pub fn peek_patch_paths(&self, patch_id: u64) -> (r: Vec<String>)
        ensures
            text::texts(r@) == (if self.open().contains_key(patch_id) {
                self.open()[patch_id].paths
            } else {
                Seq::empty()
            }),
    {
        match self.patches.get(&patch_id) {
            Some(rec) => copy_texts(&rec.paths),
            None => {
                let r: Vec<String> = Vec::new();
                assert(text::texts(r@) =~= Seq::<Seq<char>>::empty());
                r
            },
        }
    }

    /// The session of an open patch.
    pub fn patch_session(&self, patch_id: u64) -> (r: Option<SessionId>)
        ensures
            r == (if self.open().contains_key(patch_id) {
                Some(self.open()[patch_id].session)
            } else {
                None
            }),
    {
        match self.patches.get(&patch_id) {
            Some(rec) => Some(rec.session),
            None => None,
        }
    }

    /// The number of open patches.
    pub fn open_patch_count(&self) -> (n: usize)
        ensures
            n == self.rows().len(),
            self.open().dom().finite(),
            n == self.open().dom().len(),
            self.tied(),
    {
        assert(self.open().dom() =~= self.patches@.dom());
        let n = self.patches.len();
        proof {
            lemma_tied(*self);
        }
        n
    }
}

/// A map of records seen through their views is the map of the rows seen so.
proof fn lemma_map_of_views(t: Seq<(u64, PatchRecord)>)
    ensures
        table::map_of(t.map_values(|e: (u64, PatchRecord)| (e.0, e.1.view()))) == table::map_of(
            t,
        ).map_values(|p: PatchRecord| p.view()),
    decreases t.len(),
{
    let f = |e: (u64, PatchRecord)| (e.0, e.1.view());
    let v = |p: PatchRecord| p.view();
    let seen = t.map_values(f);
    if t.len() == 0 {
        assert(table::map_of(seen) =~= table::map_of(t).map_values(v));
    } else {
        lemma_map_of_views(t.drop_last());
        assert(seen.drop_last() =~= t.drop_last().map_values(f));
        assert(table::map_of(seen) =~= table::map_of(t).map_values(v));
    }
}

/// What a consistent table of patches holds.
proof fn lemma_tied(p: OptimisticPatcher)
    requires
        p.patches.consistent(),
    ensures
        p.tied(),
{
    let t = p.patches.rows();
    assert forall|i: int, j: int| 0 <= i < j < p.rows().len() implies (#[trigger] p.rows()[i]).0
        != (#[trigger] p.rows()[j]).0 by {
        assert(t[i].0 != t[j].0);
    }
    lemma_map_of_views(t);
}

/// Some open patch touches `q`.
pub open spec fn some_touches(open: Map<u64, PatchView>, q: Seq<char>) -> bool {
    exists|id: u64| #[trigger] open.contains_key(id) && open[id].paths.contains(q)
}

/// A list names the paths that open patches touch, each once.
pub open spec fn lists_open(open: Map<u64, PatchView>, listed: Seq<Seq<char>>) -> bool {
    &&& listed.no_duplicates()
    &&& forall|q: Seq<char>| #[trigger] listed.contains(q) <==> some_touches(open, q)
}

/// The paths that are counted.
pub open spec fn counted_paths(counts: Seq<(String, u32)>) -> Seq<Seq<char>> {
    counts.map_values(|c: (String, u32)| c.0@)
}

/// The paths that open patches touch are the paths of the open patches taken together, and they are
/// those that are counted.
pub proof fn law_open_paths_are_counted(
    open: Map<u64, PatchView>,
    listed: Seq<Seq<char>>,
    counts: Seq<(String, u32)>,
)
    requires
        lists_open(open, listed),
        lists_open(open, counted_paths(counts)),
    ensures
        listed.to_set() == counted_paths(counts).to_set(),
        listed.len() == counts.len(),
        forall|id: u64, q: Seq<char>|
            #[trigger] open.contains_key(id) && #[trigger] open[id].paths.contains(q)
                ==> listed.contains(q),
        forall|q: Seq<char>| #[trigger]
            listed.contains(q) ==> exists|id: u64| #[trigger]
                open.contains_key(id) && open[id].paths.contains(q),
{
    let counted = counted_paths(counts);
    assert forall|q: Seq<char>| listed.to_set().contains(q) == counted.to_set().contains(q) by {
        assert(listed.contains(q) <==> some_touches(open, q));
        assert(counted.contains(q) <==> some_touches(open, q));
    }
    assert(listed.to_set() =~= counted.to_set());
    listed.unique_seq_to_set();
    counted.unique_seq_to_set();
    assert forall|id: u64, q: Seq<char>|
        #[trigger] open.contains_key(id) && #[trigger] open[id].paths.contains(
            q,
        ) implies listed.contains(q) by {
        assert(some_touches(open, q));
    }
    assert forall|q: Seq<char>| #[trigger] listed.contains(q) implies exists|id: u64| #[trigger]
        open.contains_key(id) && open[id].paths.contains(q) by {
        assert(some_touches(open, q));
    }
}

/// Some open patch of a session touches `q`.
pub open spec fn session_holds(open: Map<u64, PatchView>, session: SessionId, q: Seq<char>) -> bool {
    exists|id: u64| #[trigger]
        open.contains_key(id) && open[id].session == session && open[id].paths.contains(q)
}

/// The open patches of a session.
pub open spec fn patches_of(open: Map<u64, PatchView>, session: SessionId) -> Set<u64> {
    open.dom().filter(|id: u64| open[id].session == session)
}

/// A path is touched as often as some open patch lists it: where the rows are the open patches, a
/// path is touched if and only if an open patch lists it.
pub proof fn law_rows_are_open_patches(p: OptimisticPatcher, session: SessionId, q: Seq<char>)
    requires
        p.tied(),
    ensures
        touches(p.rows(), q) > 0 <==> some_touches(p.open(), q),
        session_touches(p.rows(), session, q) <==> session_holds(p.open(), session, q),
{
    let rows = p.rows();
    table::lemma_map_of(rows);
    lemma_touched_by(rows, q);
    if touches(rows, q) > 0 {
        let i = choose|i: int| 0 <= i < rows.len() && (#[trigger] rows[i]).1.paths.contains(q);
        assert(p.open().contains_key(rows[i].0) && p.open()[rows[i].0].paths.contains(q));
    }
    if some_touches(p.open(), q) {
        let id = choose|id: u64| #[trigger]
            p.open().contains_key(id) && p.open()[id].paths.contains(q);
        let i = choose|i: int| 0 <= i < rows.len() && (#[trigger] rows[i]).0 == id;
        assert(rows[i].1.paths.contains(q));
    }
    if session_touches(rows, session, q) {
        let i = choose|i: int|
            0 <= i < rows.len() && (#[trigger] rows[i]).1.session == session
                && rows[i].1.paths.contains(q);
        assert(p.open().contains_key(rows[i].0));
    }
    if session_holds(p.open(), session, q) {
        let id = choose|id: u64| #[trigger]
            p.open().contains_key(id) && p.open()[id].session == session
                && p.open()[id].paths.contains(q);
        let i = choose|i: int| 0 <= i < rows.len() && (#[trigger] rows[i]).0 == id;
        assert(rows[i].1.session == session && rows[i].1.paths.contains(q));
    }
}

/// A path is touched where a row lists it.
proof fn lemma_touched_by(rows: Seq<(u64, PatchView)>, q: Seq<char>)
    ensures
        touches(rows, q) > 0 <==> exists|i: int|
            0 <= i < rows.len() && (#[trigger] rows[i]).1.paths.contains(q),
    decreases rows.len(),
{
    if rows.len() > 0 {
        let front = rows.drop_last();
        lemma_touched_by(front, q);
        let last = rows.last().1.paths;
        last.to_multiset_ensures();
        assert(last.contains(q) <==> times(last, q) > 0);
        if touches(front, q) > 0 {
            let i = choose|i: int| 0 <= i < front.len() && (#[trigger] front[i]).1.paths.contains(q);
            assert(rows[i].1.paths.contains(q));
        }
        if last.contains(q) {
            assert(rows[rows.len() - 1].1.paths.contains(q));
        }
        if exists|i: int| 0 <= i < rows.len() && (#[trigger] rows[i]).1.paths.contains(q) {
            let i = choose|i: int| 0 <= i < rows.len() && (#[trigger] rows[i]).1.paths.contains(q);
            if i < front.len() {
                assert(front[i].1.paths.contains(q));
            }
        }
    }
}

/// `ids` are the patches that were opened more than `ttl_secs` before `now_ms`.
pub open spec fn expired_at(
    open: Map<u64, PatchView>,
    ids: Seq<u64>,
    ttl_secs: u64,
    now_ms: u64,
) -> bool {
    forall|id: u64| #[trigger]
        ids.contains(id) <==> open.contains_key(id) && open[id].created_ms < now_ms - ttl_secs
            * 1000
}

/// Two patches have a path in common.
pub open spec fn share_path(a: PatchView, b: PatchView) -> bool {
    exists|q: Seq<char>| #[trigger] a.paths.contains(q) && b.paths.contains(q)
}

/// Every path of `a` is looked up among those of `b`.
fn paths_meet(a: &Vec<String>, b: &Vec<String>) -> (r: bool)
    ensures
        r == exists|q: Seq<char>| #[trigger] text::texts(a@).contains(q) && text::texts(b@).contains(q),
{
    let mut i: usize = 0;
    while i < a.len()
        invariant
            i <= a.len(),
            forall|j: int| 0 <= j < i ==> !text::texts(b@).contains(#[trigger] text::texts(a@)[j]),
        decreases a.len() - i,
    {
        if texts_contain(b, a[i].as_str()) {
            assert(text::texts(a@)[i as int] == a@[i as int]@);
            assert(text::texts(a@).contains(text::texts(a@)[i as int]));
            return true;
        }
        assert(text::texts(a@)[i as int] == a@[i as int]@);
        i = i + 1;
    }
    assert forall|q: Seq<char>| !(#[trigger] text::texts(a@).contains(q) && text::texts(b@).contains(q)) by {
        if text::texts(a@).contains(q) {
            let j = choose|j: int| 0 <= j < text::texts(a@).len() && text::texts(a@)[j] == q;
            assert(!text::texts(b@).contains(text::texts(a@)[j]));
        }
    }
    false
}

/// What a list gains by one more number, kept in order.
proof fn lemma_inserted(before: Seq<u64>, after: Seq<u64>, x: u64)
    requires
        exists|k: int| 0 <= k <= before.len() && after == #[trigger] before.insert(k, x),
    ensures
        forall|y: u64| #[trigger] after.contains(y) <==> before.contains(y) || y == x,
        !before.contains(x) && sorting::ascending(after) && sorting::strictly_ascending(before)
            ==> sorting::strictly_ascending(after),
{
    let k = choose|k: int| 0 <= k <= before.len() && after == #[trigger] before.insert(k, x);
    assert forall|y: u64| #[trigger] after.contains(y) <==> before.contains(y) || y == x by {
        if after.contains(y) {
            let j = choose|j: int| 0 <= j < after.len() && after[j] == y;
            if j < k {
                assert(before[j] == y);
            } else if j > k {
                assert(before[j - 1] == y);
            }
        }
        if before.contains(y) {
            let j = choose|j: int| 0 <= j < before.len() && before[j] == y;
            if j < k {
                assert(after[j] == y);
            } else {
                assert(after[j + 1] == y);
            }
        }
        assert(after[k] == x);
    }
    if !before.contains(x) && sorting::ascending(after) && sorting::strictly_ascending(before) {
        assert forall|i: int, j: int| 0 <= i < j < after.len() implies after[i] < after[j] by {
            let i0 = if i < k { i } else { i - 1 };
            let j0 = if j < k { j } else { j - 1 };
            if i == k {
                assert(after[j] == before[j0]);
                assert(before.contains(before[j0]));
            } else if j == k {
                assert(after[i] == before[i0]);
                assert(before.contains(before[i0]));
            } else {
                assert(after[i] == before[i0] && after[j] == before[j0]);
            }
        }
    }
}

impl OptimisticPatcher {
    /// The open patches that touch a path, and, where a session is given, belong to it.
    fn matching_patches(
        &self,
        session: Option<SessionId>,
        rel_path: &str,
        repo_root: &str,
    ) -> (r: Vec<u64>)
        ensures
            sorting::strictly_ascending(r@),
            forall|id: u64| #[trigger]
                r@.contains(id) <==> self.open().contains_key(id) && patch_touches(
                    self.open()[id],
                    repo_root@,
                    rel_path@,
                ) && (session matches Some(s) ==> self.open()[id].session == s),
    {
        let abs = absolute_path(repo_root, rel_path);
        let n = self.patches.len();
        let mut out: Vec<u64> = Vec::new();
        let mut i: usize = 0;
        while i < n
            invariant
                i <= n,
                n == self.patches.rows().len(),
                self.patches.consistent(),
                abs@ == absolute(repo_root@, rel_path@),
                sorting::strictly_ascending(out@),
                forall|id: u64| #[trigger]
                    out@.contains(id) <==> exists|j: int|
                        {
                            &&& 0 <= j < i
                            &&& (#[trigger] self.patches.rows()[j]).0 == id
                            &&& patch_touches(
                                self.patches.rows()[j].1.view(),
                                repo_root@,
                                rel_path@,
                            )
                            &&& session matches Some(s) ==> self.patches.rows()[j].1.session == s
                        },
            decreases n - i,
        {
            let id: u64 = *self.patches.key_at(i);
            let rec = self.patches.value_at(i);
            let mine = match session {
                Some(s) => rec.session == s,
                None => true,
            };
            let ghost before = out@;
            if mine && (texts_contain(&rec.paths, rel_path) || texts_contain(
                &rec.paths,
                abs.as_str(),
            )) {
                proof {
                    if before.contains(id) {
                        let j = choose|j: int|
                            {
                                &&& 0 <= j < i
                                &&& (#[trigger] self.patches.rows()[j]).0 == id
                                &&& patch_touches(
                                    self.patches.rows()[j].1.view(),
                                    repo_root@,
                                    rel_path@,
                                )
                                &&& session matches Some(s) ==> self.patches.rows()[j].1.session
                                    == s
                            };
                        assert(self.patches.rows()[j].0 != self.patches.rows()[i as int].0);
                    }
                }
                insert_sorted(&mut out, id);
                proof {
                    lemma_inserted(before, out@, id);
                    assert(self.patches.rows()[i as int].0 == id);
                }
            }
            i = i + 1;
        }
        proof {
            let t = self.patches.rows();
            assert forall|id: u64| #[trigger] out@.contains(id) <==> self.open().contains_key(id)
                && patch_touches(self.open()[id], repo_root@, rel_path@) && (session matches Some(s)
                ==> self.open()[id].session == s) by {
                if self.open().contains_key(id) {
                    assert(self.patches@.contains_key(id));
                    let j = choose|j: int| 0 <= j < t.len() && (#[trigger] t[j]).0 == id;
                    assert(self.patches@.contains_pair(t[j].0, t[j].1));
                }
                if out@.contains(id) {
                    let j = choose|j: int|
                        {
                            &&& 0 <= j < n
                            &&& (#[trigger] t[j]).0 == id
                            &&& patch_touches(t[j].1.view(), repo_root@, rel_path@)
                            &&& session matches Some(s) ==> t[j].1.session == s
                        };
                    assert(self.patches@.contains_pair(t[j].0, t[j].1));
                }
            }
        }
        out
    }

    /// The open patches that touch a path, oldest first.
    pub fn open_patches_for_path(&self, rel_path: &str, repo_root: &str) -> (r: Vec<u64>)
        ensures
            sorting::strictly_ascending(r@),
            forall|id: u64| #[trigger]
                r@.contains(id) <==> self.open().contains_key(id) && patch_touches(
                    self.open()[id],
                    repo_root@,
                    rel_path@,
                ),
    {
        self.matching_patches(None, rel_path, repo_root)
    }

    /// The open patches of a session that touch a path, oldest first.
    pub fn same_session_open_patches_for_path(
        &self,
        session: SessionId,
        rel_path: &str,
        repo_root: &str,
    ) -> (r: Vec<u64>)
        ensures
            sorting::strictly_ascending(r@),
            forall|id: u64| #[trigger]
                r@.contains(id) <==> self.open().contains_key(id) && patch_touches(
                    self.open()[id],
                    repo_root@,
                    rel_path@,
                ) && self.open()[id].session == session,
    {
        self.matching_patches(Some(session), rel_path, repo_root)
    }

    /// The newest open patch that touches a path.
    pub fn pending_patch_for_path(&self, rel_path: &str, repo_root: &str) -> (r: Option<u64>)
        ensures
            match r {
                Some(id) => {
                    &&& self.open().contains_key(id)
                    &&& patch_touches(self.open()[id], repo_root@, rel_path@)
                    &&& forall|o: u64| #[trigger]
                        self.open().contains_key(o) && patch_touches(
                            self.open()[o],
                            repo_root@,
                            rel_path@,
                        ) ==> o <= id
                },
                None => forall|o: u64| #[trigger]
                    self.open().contains_key(o) ==> !patch_touches(
                        self.open()[o],
                        repo_root@,
                        rel_path@,
                    ),
            },
    {
        let ids = self.open_patches_for_path(rel_path, repo_root);
        if ids.len() == 0 {
            assert forall|o: u64| #[trigger] self.open().contains_key(o) implies !patch_touches(
                self.open()[o],
                repo_root@,
                rel_path@,
            ) by {
                assert(!ids@.contains(o));
            }
            None
        } else {
            let id = ids[ids.len() - 1];
            proof {
                assert(ids@.contains(id));
                assert forall|o: u64| #[trigger]
                    self.open().contains_key(o) && patch_touches(
                        self.open()[o],
                        repo_root@,
                        rel_path@,
                    ) implies o <= id by {
                    assert(ids@.contains(o));
                    let j = choose|j: int| 0 <= j < ids@.len() && ids@[j] == o;
                    if j < ids@.len() - 1 {
                        assert(ids@[j] < ids@[ids@.len() - 1]);
                    }
                }
            }
            Some(id)
        }
    }

    /// The newest open patch that is newer than a given one and shares a path with it.
    pub fn newer_open_patch_on_paths(&self, patch_id: u64) -> (r: Option<u64>)
        ensures
            match r {
                Some(id) => {
                    &&& self.open().contains_key(patch_id)
                    &&& self.open().contains_key(id)
                    &&& id > patch_id
                    &&& share_path(self.open()[id], self.open()[patch_id])
                    &&& forall|o: u64| #[trigger]
                        self.open().contains_key(o) && o > patch_id && share_path(
                            self.open()[o],
                            self.open()[patch_id],
                        ) ==> o <= id
                },
                None => self.open().contains_key(patch_id) ==> forall|o: u64| #[trigger]
                    self.open().contains_key(o) && o > patch_id ==> !share_path(
                        self.open()[o],
                        self.open()[patch_id],
                    ),
            },
    {
        let mine = match self.patches.get(&patch_id) {
            Some(rec) => rec,
            None => {
                return None;
            },
        };
        let n = self.patches.len();
        let mut best: Option<u64> = None;
        let mut i: usize = 0;
        while i < n
            invariant
                i <= n,
                n == self.patches.rows().len(),
                self.patches.consistent(),
                self.patches@.contains_pair(patch_id, *mine),
                match best {
                    Some(id) => {
                        &&& self.open().contains_key(id)
                        &&& id > patch_id
                        &&& share_path(self.open()[id], self.open()[patch_id])
                    },
                    None => true,
                },
                forall|j: int|
                    0 <= j < i && (#[trigger] self.patches.rows()[j]).0 > patch_id && share_path(
                        self.patches.rows()[j].1.view(),
                        mine.view(),
                    ) ==> best is Some && self.patches.rows()[j].0 <= best->0,
            decreases n - i,
        {
            let id: u64 = *self.patches.key_at(i);
            let rec = self.patches.value_at(i);
            proof {
                let t = self.patches.rows();
                assert(self.patches@.contains_pair(t[i as int].0, t[i as int].1));
                assert(self.open()[id] == rec.view());
                assert(self.open()[patch_id] == mine.view());
            }
            if id > patch_id && paths_meet(&rec.paths, &mine.paths) {
                proof {
                    let q = choose|q: Seq<char>| #[trigger]
                        text::texts(rec.paths@).contains(q) && text::texts(mine.paths@).contains(q);
                    assert(rec.view().paths.contains(q) && mine.view().paths.contains(q));
                    assert(share_path(rec.view(), mine.view()));
                }
                match best {
                    Some(b) => {
                        if id > b {
                            best = Some(id);
                        }
                    },
                    None => {
                        best = Some(id);
                    },
                }
            }
            i = i + 1;
        }
        proof {
            let t = self.patches.rows();
            assert forall|o: u64| #[trigger]
                self.open().contains_key(o) && o > patch_id && share_path(
                    self.open()[o],
                    self.open()[patch_id],
                ) implies best is Some && o <= best->0 by {
                assert(self.patches@.contains_key(o));
                let j = choose|j: int| 0 <= j < t.len() && (#[trigger] t[j]).0 == o;
                assert(self.patches@.contains_pair(t[j].0, t[j].1));
            }
        }
        best
    }

    /// The open patches that were opened more than `ttl_secs` before `now_ms`.
    pub fn expired_patch_ids_at(&self, ttl_secs: u64, now_ms: u64) -> (r: Vec<u64>)
        requires
            ttl_secs * 1000 <= u64::MAX,
        ensures
            sorting::strictly_ascending(r@),
            expired_at(self.open(), r@, ttl_secs, now_ms),
    {
        let age: u64 = ttl_secs * 1000;
        let cutoff: u64 = if now_ms >= age {
            now_ms - age
        } else {
            0
        };
        let n = self.patches.len();
        let mut out: Vec<u64> = Vec::new();
        let mut i: usize = 0;
        while i < n
            invariant
                i <= n,
                n == self.patches.rows().len(),
                self.patches.consistent(),
                sorting::strictly_ascending(out@),
                forall|id: u64| #[trigger]
                    out@.contains(id) <==> exists|j: int|
                        {
                            &&& 0 <= j < i
                            &&& (#[trigger] self.patches.rows()[j]).0 == id
                            &&& self.patches.rows()[j].1.created_ms < cutoff
                        },
            decreases n - i,
        {
            let id: u64 = *self.patches.key_at(i);
            let ghost before = out@;
            if self.patches.value_at(i).created_ms < cutoff {
                proof {
                    if before.contains(id) {
                        let j = choose|j: int|
                            {
                                &&& 0 <= j < i
                                &&& (#[trigger] self.patches.rows()[j]).0 == id
                                &&& self.patches.rows()[j].1.created_ms < cutoff
                            };
                        assert(self.patches.rows()[j].0 != self.patches.rows()[i as int].0);
                    }
                }
                insert_sorted(&mut out, id);
                proof {
                    lemma_inserted(before, out@, id);
                    assert(self.patches.rows()[i as int].0 == id);
                }
            }
            i = i + 1;
        }
        proof {
            let t = self.patches.rows();
            assert forall|id: u64| #[trigger] out@.contains(id) <==> self.open().contains_key(id)
                && self.open()[id].created_ms < now_ms - ttl_secs * 1000 by {
                if self.open().contains_key(id) {
                    assert(self.patches@.contains_key(id));
                    let j = choose|j: int| 0 <= j < t.len() && (#[trigger] t[j]).0 == id;
                    assert(self.patches@.contains_pair(t[j].0, t[j].1));
                }
                if out@.contains(id) {
                    let j = choose|j: int|
                        {
                            &&& 0 <= j < n
                            &&& (#[trigger] t[j]).0 == id
                            &&& t[j].1.created_ms < cutoff
                        };
                    assert(self.patches@.contains_pair(t[j].0, t[j].1));
                }
            }
        }
        out
    }

    /// The open patches that were opened more than `ttl_secs` ago.
    pub fn expired_patch_ids(&self, ttl_secs: u64) -> (r: Vec<u64>)
        requires
            ttl_secs * 1000 <= u64::MAX,
        ensures
            sorting::strictly_ascending(r@),
            exists|now_ms: u64| #[trigger] expired_at(self.open(), r@, ttl_secs, now_ms),
    {
        self.expired_patch_ids_at(ttl_secs, now_epoch_ms())
    }
}

/// The paths of the patches of `rows`, patch after patch, each with the id of its patch.
pub open spec fn listed_paths(rows: Seq<(u64, PatchView)>) -> Seq<(u64, Seq<char>)>
    decreases rows.len(),
{
    if rows.len() == 0 {
        Seq::empty()
    } else {
        listed_paths(rows.drop_last()) + rows.last().1.paths.map_values(
            |p: Seq<char>| (rows.last().0, p),
        )
    }
}

/// The ids and texts of listed paths.
pub open spec fn listed_views(v: Seq<(u64, String)>) -> Seq<(u64, Seq<char>)> {
    v.map_values(|e: (u64, String)| (e.0, e.1@))
}

/// What is listed for some rows is what they touch.
proof fn lemma_listed(rows: Seq<(u64, PatchView)>, q: Seq<char>)
    ensures
        times(listed_paths(rows).map_values(|e: (u64, Seq<char>)| e.1), q) == touches(rows, q),
    decreases rows.len(),
{
    if rows.len() == 0 {
        lemma_times_empty();
        assert(listed_paths(rows).map_values(|e: (u64, Seq<char>)| e.1) =~= Seq::<
            Seq<char>,
        >::empty());
    } else {
        lemma_listed(rows.drop_last(), q);
        let a = listed_paths(rows.drop_last()).map_values(|e: (u64, Seq<char>)| e.1);
        let b = rows.last().1.paths;
        assert(listed_paths(rows).map_values(|e: (u64, Seq<char>)| e.1) =~= a + b);
        vstd::seq_lib::lemma_multiset_commutative(a, b);
    }
}

impl OptimisticPatcher {
    /// Every path of every open patch, with the id of the patch.
    pub fn open_patch_paths(&self) -> (r: Vec<(u64, String)>)
        ensures
            listed_views(r@) == listed_paths(self.rows()),
    {
        let n = self.patches.len();
        let mut out: Vec<(u64, String)> = Vec::new();
        let mut i: usize = 0;
        let ghost rows = self.rows();
        proof {
            assert(rows.take(0) =~= Seq::<(u64, PatchView)>::empty());
            assert(listed_views(out@) =~= Seq::<(u64, Seq<char>)>::empty());
        }
        while i < n
            invariant
                i <= n,
                n == self.patches.rows().len(),
                rows == self.rows(),
                listed_views(out@) == listed_paths(rows.take(i as int)),
            decreases n - i,
        {
            let id: u64 = *self.patches.key_at(i);
            let rec = self.patches.value_at(i);
            let ghost start = listed_views(out@);
            let ghost tail = text::texts(rec.paths@).map_values(|p: Seq<char>| (id, p));
            let mut j: usize = 0;
            assert(start + tail.take(0) =~= start);
            while j < rec.paths.len()
                invariant
                    j <= rec.paths.len(),
                    tail == text::texts(rec.paths@).map_values(|p: Seq<char>| (id, p)),
                    listed_views(out@) == start + tail.take(j as int),
                decreases rec.paths.len() - j,
            {
                let ghost before = out@;
                out.push((id, rec.paths[j].clone()));
                assert(listed_views(out@) =~= listed_views(before).push((id, rec.paths@[j as int]@)));
                assert(listed_views(out@) =~= start + tail.take(j + 1));
                j = j + 1;
            }
            proof {
                assert(tail.take(tail.len() as int) =~= tail);
                assert(rows.take(i + 1).drop_last() =~= rows.take(i as int));
                let last = rows.take(i + 1).last();
                assert(last == (id, rec.view()));
                assert(tail =~= last.1.paths.map_values(|p: Seq<char>| (last.0, p)));
            }
            i = i + 1;
        }
        assert(rows.take(rows.len() as int) =~= rows);
        out
    }

    /// The paths that open patches touch, each once.
    pub fn all_open_paths(&self) -> (r: Vec<String>)
        ensures
            lists_open(self.open(), text::texts(r@)),
            forall|q: Seq<char>| #[trigger] text::texts(r@).contains(q) <==> touches(self.rows(), q) > 0,
    {
        let _ = self.open_patch_count();
        let listed = self.open_patch_paths();
        let ghost lv = listed_paths(self.rows()).map_values(|e: (u64, Seq<char>)| e.1);
        let mut out: Vec<String> = Vec::new();
        let mut i: usize = 0;
        while i < listed.len()
            invariant
                i <= listed.len(),
                listed_views(listed@) == listed_paths(self.rows()),
                lv == listed_paths(self.rows()).map_values(|e: (u64, Seq<char>)| e.1),
                text::texts(out@).no_duplicates(),
                forall|q: Seq<char>| #[trigger]
                    text::texts(out@).contains(q) <==> lv.take(i as int).contains(q),
            decreases listed.len() - i,
        {
            let ghost before = text::texts(out@);
            let ghost x = lv[i as int];
            proof {
                assert(listed_views(listed@)[i as int].1 == listed@[i as int].1@);
                assert(x == listed@[i as int].1@);
                assert(lv.take(i + 1) =~= lv.take(i as int).push(x));
            }
            if !texts_contain(&out, listed[i].1.as_str()) {
                out.push(listed[i].1.clone());
                proof {
                    assert(text::texts(out@) =~= before.push(x));
                    assert forall|q: Seq<char>| #[trigger]
                        text::texts(out@).contains(q) <==> lv.take(i + 1).contains(q) by {
                        lemma_push_contains(before, x, q);
                        lemma_push_contains(lv.take(i as int), x, q);
                        assert(before.contains(q) <==> lv.take(i as int).contains(q));
                    }
                }
            } else {
                proof {
                    assert forall|q: Seq<char>| #[trigger]
                        text::texts(out@).contains(q) <==> lv.take(i + 1).contains(q) by {
                        lemma_push_contains(lv.take(i as int), x, q);
                        assert(before.contains(q) <==> lv.take(i as int).contains(q));
                    }
                }
            }
            i = i + 1;
        }
        proof {
            assert(lv.take(lv.len() as int) =~= lv);
            assert forall|q: Seq<char>| #[trigger] text::texts(out@).contains(q) <==> touches(
                self.rows(),
                q,
            ) > 0 by {
                lemma_listed(self.rows(), q);
                lv.to_multiset_ensures();
                assert(lv.contains(q) <==> lv.to_multiset().count(q) > 0);
            }
            assert forall|q: Seq<char>| #[trigger] text::texts(out@).contains(q) <==> some_touches(
                self.open(),
                q,
            ) by {
                law_rows_are_open_patches(*self, SessionId(0), q);
            }
        }
        out
    }

    /// How many times open patches touch each path.
    pub fn path_refcounts(&self) -> (r: Vec<(String, u32)>)
        requires
            forall|q: Seq<char>| #[trigger] touches(self.rows(), q) <= u32::MAX,
        ensures
            forall|i: int, j: int|
                0 <= i < j < r@.len() ==> (#[trigger] r@[i]).0@ != (#[trigger] r@[j]).0@,
            forall|i: int|
                0 <= i < r@.len() ==> (#[trigger] r@[i]).1 == touches(self.rows(), r@[i].0@)
                    && r@[i].1 > 0,
            forall|q: Seq<char>| #[trigger]
                touches(self.rows(), q) > 0 ==> exists|i: int|
                    0 <= i < r@.len() && (#[trigger] r@[i]).0@ == q,
            lists_open(self.open(), counted_paths(r@)),
    {
        let _ = self.open_patch_count();
        let listed = self.open_patch_paths();
        let ghost lv = listed_paths(self.rows()).map_values(|e: (u64, Seq<char>)| e.1);
        let mut tracker = SpeculativePathTracker::new();
        let mut i: usize = 0;
        proof {
            lemma_times_empty();
            assert(lv.take(0) =~= Seq::<Seq<char>>::empty());
        }
        while i < listed.len()
            invariant
                i <= listed.len(),
                listed_views(listed@) == listed_paths(self.rows()),
                lv == listed_paths(self.rows()).map_values(|e: (u64, Seq<char>)| e.1),
                forall|q: Seq<char>| #[trigger] touches(self.rows(), q) <= u32::MAX,
                path_lease::counts_positive(tracker@),
                forall|q: Seq<char>| #[trigger]
                    path_lease::count_of(tracker@, q) == times(lv.take(i as int), q),
            decreases listed.len() - i,
        {
            let ghost x = lv[i as int];
            let ghost before = tracker@;
            proof {
                assert(listed_views(listed@)[i as int].1 == listed@[i as int].1@);
                assert(lv.take(i + 1) =~= lv.take(i as int).push(x));
                lemma_times_push(lv.take(i as int), x, x);
                lemma_times_prefix(lv, i + 1, x);
                lemma_listed(self.rows(), x);
                assert(touches(self.rows(), x) <= u32::MAX);
                assert(path_lease::count_of(before, x) == times(lv.take(i as int), x));
            }
            tracker.register(listed[i].1.as_str());
            proof {
                assert forall|q: Seq<char>| #[trigger] path_lease::count_of(tracker@, q) == times(
                    lv.take(i + 1),
                    q,
                ) by {
                    lemma_times_push(lv.take(i as int), x, q);
                    assert(path_lease::count_of(before, q) == times(lv.take(i as int), q));
                }
            }
            i = i + 1;
        }
        let r = tracker.path_counts();
        proof {
            assert(lv.take(lv.len() as int) =~= lv);
            assert forall|a: int| 0 <= a < r@.len() implies (#[trigger] r@[a]).1 == touches(
                self.rows(),
                r@[a].0@,
            ) && r@[a].1 > 0 by {
                lemma_listed(self.rows(), r@[a].0@);
                assert(path_lease::count_of(tracker@, r@[a].0@) == times(lv, r@[a].0@));
            }
            assert forall|q: Seq<char>| #[trigger] touches(self.rows(), q) > 0 implies exists|
                a: int,
            |
                0 <= a < r@.len() && (#[trigger] r@[a]).0@ == q by {
                lemma_listed(self.rows(), q);
                assert(path_lease::count_of(tracker@, q) == times(lv, q));
                assert(tracker@.contains_key(q));
            }
            assert forall|q: Seq<char>| #[trigger] some_touches(self.open(), q) <==> exists|
                a: int,
            |
                0 <= a < r@.len() && (#[trigger] r@[a]).0@ == q by {
                law_rows_are_open_patches(*self, SessionId(0), q);
                if exists|a: int| 0 <= a < r@.len() && (#[trigger] r@[a]).0@ == q {
                    let a = choose|a: int| 0 <= a < r@.len() && (#[trigger] r@[a]).0@ == q;
                    assert(r@[a].1 == touches(self.rows(), r@[a].0@));
                }
                if touches(self.rows(), q) > 0 {
                    assert(exists|a: int| 0 <= a < r@.len() && (#[trigger] r@[a]).0@ == q);
                }
            }
            let named = counted_paths(r@);
            assert(named.no_duplicates()) by {
                assert forall|i: int, j: int|
                    0 <= i < named.len() && 0 <= j < named.len() && i != j implies named[i]
                    != named[j] by {
                    if i < j {
                        assert(r@[i].0@ != r@[j].0@);
                    } else {
                        assert(r@[j].0@ != r@[i].0@);
                    }
                }
            }
            assert forall|q: Seq<char>| #[trigger] named.contains(q) <==> some_touches(
                self.open(),
                q,
            ) by {
                if named.contains(q) {
                    let a = choose|a: int| 0 <= a < named.len() && named[a] == q;
                    assert(r@[a].0@ == q);
                }
                if some_touches(self.open(), q) {
                    let a = choose|a: int| 0 <= a < r@.len() && (#[trigger] r@[a]).0@ == q;
                    assert(named[a] == q);
                }
            }
        }
        r
    }
}

/// The rows that are not of a session.
pub open spec fn rows_not_of(rows: Seq<(u64, PatchView)>, session: SessionId) -> Seq<
    (u64, PatchView),
>
    decreases rows.len(),
{
    if rows.len() == 0 {
        rows
    } else if rows.last().1.session == session {
        rows_not_of(rows.drop_last(), session)
    } else {
        rows_not_of(rows.drop_last(), session).push(rows.last())
    }
}

/// A row of the session makes no difference to the others.
proof fn lemma_rows_not_of_remove(rows: Seq<(u64, PatchView)>, i: int, session: SessionId)
    requires
        0 <= i < rows.len(),
        rows[i].1.session == session,
    ensures
        rows_not_of(rows.remove(i), session) == rows_not_of(rows, session),
    decreases rows.len(),
{
    if i == rows.len() - 1 {
        assert(rows.remove(i) =~= rows.drop_last());
    } else {
        lemma_rows_not_of_remove(rows.drop_last(), i, session);
        assert(rows.remove(i).drop_last() =~= rows.drop_last().remove(i));
        assert(rows.remove(i).last() == rows.last());
    }
}

/// How often the patches of a session touch `q`.
pub open spec fn times_of(rows: Seq<(u64, PatchView)>, session: SessionId, q: Seq<char>) -> nat
    decreases rows.len(),
{
    if rows.len() == 0 {
        0
    } else {
        times_of(rows.drop_last(), session, q) + (if rows.last().1.session == session {
            times(rows.last().1.paths, q)
        } else {
            0
        })
    }
}

/// A count taken down by another, not below zero.
pub open spec fn lowered(count: nat, by: nat) -> nat {
    if count >= by {
        (count - by) as nat
    } else {
        0
    }
}

/// Without a row of the session, its patches touch `q` less often by what that row lists.
proof fn lemma_times_of_remove(
    rows: Seq<(u64, PatchView)>,
    i: int,
    session: SessionId,
    q: Seq<char>,
)
    requires
        0 <= i < rows.len(),
        rows[i].1.session == session,
    ensures
        times_of(rows, session, q) == times_of(rows.remove(i), session, q) + times(
            rows[i].1.paths,
            q,
        ),
    decreases rows.len(),
{
    if i == rows.len() - 1 {
        assert(rows.remove(i) =~= rows.drop_last());
    } else {
        lemma_times_of_remove(rows.drop_last(), i, session, q);
        assert(rows.remove(i).drop_last() =~= rows.drop_last().remove(i));
        assert(rows.remove(i).last() == rows.last());
    }
}

/// Where no row is of the session, its patches touch nothing.
proof fn lemma_times_of_none(rows: Seq<(u64, PatchView)>, session: SessionId, q: Seq<char>)
    requires
        forall|i: int| 0 <= i < rows.len() ==> (#[trigger] rows[i]).1.session != session,
    ensures
        times_of(rows, session, q) == 0,
    decreases rows.len(),
{
    if rows.len() > 0 {
        let front = rows.drop_last();
        assert forall|i: int| 0 <= i < front.len() implies (#[trigger] front[i]).1.session
            != session by {
            assert(front[i] == rows[i]);
        }
        lemma_times_of_none(front, session, q);
        assert(rows[rows.len() - 1].1.session != session);
    }
}

/// Where no row is of the session, all are of others.
proof fn lemma_rows_not_of_all(rows: Seq<(u64, PatchView)>, session: SessionId)
    requires
        forall|i: int| 0 <= i < rows.len() ==> (#[trigger] rows[i]).1.session != session,
    ensures
        rows_not_of(rows, session) == rows,
    decreases rows.len(),
{
    if rows.len() > 0 {
        let front = rows.drop_last();
        assert forall|i: int| 0 <= i < front.len() implies (#[trigger] front[i]).1.session
            != session by {
            assert(front[i] == rows[i]);
        }
        lemma_rows_not_of_all(front, session);
        assert(rows[rows.len() - 1].1.session != session);
        assert(front.push(rows.last()) =~= rows);
    }
}

/// Some row of the session touches `q`.
pub open spec fn session_touches(
    rows: Seq<(u64, PatchView)>,
    session: SessionId,
    q: Seq<char>,
) -> bool {
    exists|i: int|
        0 <= i < rows.len() && (#[trigger] rows[i]).1.session == session
            && rows[i].1.paths.contains(q)
}

impl OptimisticPatcher {
    /// The first open patch of a session.
    fn first_of_session(&self, session: SessionId) -> (r: Option<u64>)
        ensures
            match r {
                Some(id) => self.open().contains_key(id) && self.open()[id].session == session
                    && exists|i: int|
                    {
                        &&& 0 <= i < self.rows().len()
                        &&& #[trigger] self.rows()[i] == (id, self.open()[id])
                        &&& forall|j: int|
                            0 <= j < self.rows().len() && (#[trigger] self.rows()[j]).0 == id
                                ==> j == i
                    },
                None => {
                    &&& forall|i: int|
                        0 <= i < self.rows().len() ==> (#[trigger] self.rows()[i]).1.session
                            != session
                    &&& forall|id: u64| #[trigger]
                        self.open().contains_key(id) ==> self.open()[id].session != session
                },
            },
    {
        let n = self.patches.len();
        let mut i: usize = 0;
        while i < n
            invariant
                i <= n,
                n == self.patches.rows().len(),
                self.patches.consistent(),
                forall|j: int| 0 <= j < i ==> (#[trigger] self.rows()[j]).1.session != session,
            decreases n - i,
        {
            if self.patches.value_at(i).session == session {
                let id: u64 = *self.patches.key_at(i);
                proof {
                    let t = self.patches.rows();
                    assert(self.patches@.contains_pair(t[i as int].0, t[i as int].1));
                    assert(self.rows()[i as int] == (id, self.open()[id]));
                    assert forall|j: int|
                        0 <= j < self.rows().len() && (
                        #[trigger] self.rows()[j]).0 == id implies j == i by {
                        assert(t[j].0 == id);
                        if j < i {
                            assert(t[j].0 != t[i as int].0);
                        } else if j > i {
                            assert(t[i as int].0 != t[j].0);
                        }
                    }
                }
                return Some(id);
            }
            assert(self.rows()[i as int].1.session != session);
            i = i + 1;
        }
        proof {
            let t = self.patches.rows();
            assert forall|id: u64| #[trigger]
                self.open().contains_key(id) implies self.open()[id].session != session by {
                assert(self.patches@.contains_key(id));
                let j = choose|j: int| 0 <= j < t.len() && (#[trigger] t[j]).0 == id;
                assert(self.patches@.contains_pair(t[j].0, t[j].1));
                assert(self.rows()[j].1.session != session);
            }
        }
        None
    }

    /// Reverts every open patch of a session, row by row; how many there were.
    fn close_session(&mut self, session: SessionId) -> (n: usize)
        ensures
            final(self).rows() == rows_not_of(old(self).rows(), session),
            n == old(self).rows().len() - final(self).rows().len(),
            final(self).next() == old(self).next(),
            old(self).coherent() ==> final(self).coherent(),
            forall|id: u64| #[trigger]
                final(self).open().contains_key(id) ==> old(self).open().contains_pair(
                    id,
                    final(self).open()[id],
                ) && final(self).open()[id].session != session,
            forall|id: u64| #[trigger]
                old(self).open().contains_key(id) && old(self).open()[id].session != session
                    ==> final(self).open().contains_key(id),
            forall|q: Seq<char>| #[trigger]
                path_lease::leased_to(final(self).leased(), q) == (if path_lease::leased_to(old(self).leased(), q) == Some(
                    session,
                ) && session_touches(old(self).rows(), session, q) {
                    None
                } else {
                    path_lease::leased_to(old(self).leased(), q)
                }),
            forall|q: Seq<char>| #[trigger]
                path_lease::count_of(final(self).counts(), q) == lowered(
                    path_lease::count_of(old(self).counts(), q),
                    times_of(old(self).rows(), session, q),
                ),
    {
        let ghost c0 = self.counts();
        let ghost rows0 = self.rows();
        let ghost m0 = self.leased();
        let ghost open0 = self.open();
        let ghost was_coherent = self.coherent();
        let mut n: usize = 0;
        let mut left: usize = self.open_patch_count();
        proof {
            assert forall|q: Seq<char>| session_touches(rows0, session, q) implies session_touches(
                self.rows(),
                session,
                q,
            ) by {}
        }
        while left > 0
            invariant
                left == self.rows().len(),
                n + left == rows0.len(),
                rows0.len() <= usize::MAX,
                rows0 == old(self).rows(),
                m0 == old(self).leased(),
                c0 == old(self).counts(),
                forall|q: Seq<char>|
                    times_of(self.rows(), session, q) <= #[trigger] times_of(rows0, session, q),
                forall|q: Seq<char>| #[trigger]
                    path_lease::count_of(self.counts(), q) == lowered(
                        path_lease::count_of(c0, q),
                        (times_of(rows0, session, q) - times_of(self.rows(), session, q)) as nat,
                    ),
                open0 == old(self).open(),
                was_coherent == old(self).coherent(),
                rows_not_of(self.rows(), session) == rows_not_of(rows0, session),
                self.next() == old(self).next(),
                was_coherent ==> self.coherent(),
                forall|id: u64| #[trigger]
                    self.open().contains_key(id) ==> open0.contains_pair(id, self.open()[id]),
                forall|id: u64| #[trigger]
                    open0.contains_key(id) && open0[id].session != session
                        ==> self.open().contains_key(id),
                forall|q: Seq<char>| #[trigger]
                    path_lease::leased_to(self.leased(), q) == (if path_lease::leased_to(m0, q) == Some(session)
                        && session_touches(rows0, session, q) && !session_touches(
                        self.rows(),
                        session,
                        q,
                    ) {
                        None
                    } else {
                        path_lease::leased_to(self.leased(), q)
                    }),
                forall|q: Seq<char>| #[trigger]
                    path_lease::leased_to(self.leased(), q) != path_lease::leased_to(m0, q) ==> path_lease::leased_to(m0, q) == Some(
                        session,
                    ) && session_touches(rows0, session, q) && path_lease::leased_to(self.leased(), q) is None,
                forall|q: Seq<char>| #[trigger]
                    session_touches(self.rows(), session, q) ==> session_touches(
                        rows0,
                        session,
                        q,
                    ),
            decreases left,
        {
            match self.first_of_session(session) {
                Some(id) => {
                    let ghost before = *self;
                    let ghost pv = before.open()[id];
                    let r = self.revert(id, session);
                    proof {
                        assert(r is Ok);
                        let i = choose|i: int|
                            {
                                &&& 0 <= i < before.rows().len()
                                &&& #[trigger] before.rows()[i] == (id, pv)
                                &&& forall|j: int|
                                    0 <= j < before.rows().len() && (
                                    #[trigger] before.rows()[j]).0 == id ==> j == i
                            };
                        let i1 = choose|i1: int|
                            {
                                &&& 0 <= i1 < before.rows().len()
                                &&& before.rows()[i1].0 == id
                                &&& self.rows() == #[trigger] before.rows().remove(i1)
                            };
                        assert(i1 == i);
                        let b = before.rows();
                        lemma_rows_not_of_remove(b, i, session);
                        assert forall|q: Seq<char>| times_of(self.rows(), session, q)
                            <= #[trigger] times_of(rows0, session, q) by {
                            lemma_times_of_remove(b, i, session, q);
                            assert(times_of(b, session, q) <= times_of(rows0, session, q));
                        }
                        assert forall|q: Seq<char>| #[trigger]
                            path_lease::count_of(self.counts(), q) == lowered(
                                path_lease::count_of(c0, q),
                                (times_of(rows0, session, q) - times_of(
                                    self.rows(),
                                    session,
                                    q,
                                )) as nat,
                            ) by {
                            lemma_times_of_remove(b, i, session, q);
                            assert(times_of(b, session, q) <= times_of(rows0, session, q));
                            assert(path_lease::count_of(before.counts(), q) == lowered(
                                path_lease::count_of(c0, q),
                                (times_of(rows0, session, q) - times_of(b, session, q)) as nat,
                            ));
                        }
                        assert forall|q: Seq<char>| session_touches(
                            b,
                            session,
                            q,
                        ) implies session_touches(self.rows(), session, q) || pv.paths.contains(
                            q,
                        ) by {
                            let j = choose|j: int|
                                0 <= j < b.len() && (#[trigger] b[j]).1.session == session
                                    && b[j].1.paths.contains(q);
                            if j < i {
                                assert(self.rows()[j] == b[j]);
                            } else if j > i {
                                assert(self.rows()[j - 1] == b[j]);
                            }
                        }
                        assert forall|q: Seq<char>| session_touches(
                            self.rows(),
                            session,
                            q,
                        ) implies session_touches(b, session, q) by {
                            let j = choose|j: int|
                                0 <= j < self.rows().len() && (
                                #[trigger] self.rows()[j]).1.session == session
                                    && self.rows()[j].1.paths.contains(q);
                            let j0 = if j < i { j } else { j + 1 };
                            assert(b[j0] == self.rows()[j]);
                        }
                        assert forall|q: Seq<char>| #[trigger]
                            session_touches(self.rows(), session, q) implies session_touches(
                            rows0,
                            session,
                            q,
                        ) by {
                            assert(session_touches(b, session, q));
                        }
                        assert forall|q: Seq<char>| pv.paths.contains(q) implies session_touches(
                            b,
                            session,
                            q,
                        ) by {
                            assert(b[i].1.session == session && b[i].1.paths.contains(q));
                        }
                        assert forall|q: Seq<char>| #[trigger]
                            path_lease::leased_to(self.leased(), q) == (if path_lease::leased_to(m0, q) == Some(session)
                                && session_touches(rows0, session, q) && !session_touches(
                                self.rows(),
                                session,
                                q,
                            ) {
                                None
                            } else {
                                path_lease::leased_to(self.leased(), q)
                            }) by {
                            assert(path_lease::leased_to(before.leased(), q) == (if path_lease::leased_to(m0, q) == Some(
                                session,
                            ) && session_touches(rows0, session, q) && !session_touches(
                                before.rows(),
                                session,
                                q,
                            ) {
                                None
                            } else {
                                path_lease::leased_to(before.leased(), q)
                            }));
                            assert(path_lease::leased_to(before.leased(), q) != path_lease::leased_to(m0, q) ==> path_lease::leased_to(
                                before.leased(),
                                q,
                            ) is None);
                        }
                        assert forall|q: Seq<char>| #[trigger]
                            path_lease::leased_to(self.leased(), q) != path_lease::leased_to(m0, q) implies path_lease::leased_to(m0, q)
                            == Some(session) && session_touches(rows0, session, q) && path_lease::leased_to(
                            self.leased(),
                            q,
                        ) is None by {
                            assert(path_lease::leased_to(before.leased(), q) != path_lease::leased_to(m0, q) ==> path_lease::leased_to(
                                m0,
                                q,
                            ) == Some(session) && session_touches(rows0, session, q) && path_lease::leased_to(
                                before.leased(),
                                q,
                            ) is None);
                            if path_lease::leased_to(before.leased(), q) == path_lease::leased_to(m0, q) {
                                assert(pv.paths.contains(q));
                                assert(session_touches(b, session, q));
                            }
                        }
                        assert forall|o: u64| #[trigger]
                            self.open().contains_key(o) implies open0.contains_pair(
                            o,
                            self.open()[o],
                        ) by {
                            assert(before.open().contains_key(o));
                        }
                        assert forall|o: u64| #[trigger]
                            open0.contains_key(o) && open0[o].session
                                != session implies self.open().contains_key(o) by {
                            assert(before.open().contains_key(o));
                            assert(open0.contains_pair(id, before.open()[id]));
                        }
                    }
                    n = n + 1;
                    left = left - 1;
                },
                None => {
                    proof {
                        lemma_rows_not_of_all(self.rows(), session);
                        lemma_session_gone(self.rows(), session);
                        assert forall|q: Seq<char>| #[trigger]
                            path_lease::count_of(self.counts(), q) == lowered(
                                path_lease::count_of(c0, q),
                                times_of(rows0, session, q),
                            ) by {
                            lemma_times_of_none(self.rows(), session, q);
                        }
                    }
                    return n;
                },
            }
        }
        let rest = self.first_of_session(session);
        proof {
            assert(rest is None);
            lemma_rows_not_of_all(self.rows(), session);
            lemma_session_gone(self.rows(), session);
            assert forall|q: Seq<char>| #[trigger]
                path_lease::count_of(self.counts(), q) == lowered(
                    path_lease::count_of(c0, q),
                    times_of(rows0, session, q),
                ) by {
                lemma_times_of_none(self.rows(), session, q);
            }
        }
        n
    }
}

impl OptimisticPatcher {
    /// Reverts every open patch of a session; how many there were.
    pub fn revert_session(&mut self, session: SessionId) -> (n: usize)
        ensures
            final(self).tied(),
            n == patches_of(old(self).open(), session).len(),
            final(self).open() == old(self).open().remove_keys(
                patches_of(old(self).open(), session),
            ),
            final(self).rows() == rows_not_of(old(self).rows(), session),
            final(self).next() == old(self).next(),
            old(self).coherent() ==> final(self).coherent(),
            forall|q: Seq<char>| #[trigger]
                path_lease::leased_to(final(self).leased(), q) == (if path_lease::leased_to(
                    old(self).leased(),
                    q,
                ) == Some(session) && session_holds(old(self).open(), session, q) {
                    None
                } else {
                    path_lease::leased_to(old(self).leased(), q)
                }),
            forall|q: Seq<char>| #[trigger]
                path_lease::count_of(final(self).counts(), q) == lowered(
                    path_lease::count_of(old(self).counts(), q),
                    times_of(old(self).rows(), session, q),
                ),
    {
        let ghost before = *self;
        let _ = self.open_patch_count();
        let n = self.close_session(session);
        let _ = self.open_patch_count();
        proof {
            let gone = patches_of(before.open(), session);
            let left = before.open().remove_keys(gone);
            assert(self.open() =~= left) by {
                assert forall|id: u64| self.open().contains_key(id) == left.contains_key(id) by {
                    if left.contains_key(id) {
                        assert(before.open()[id].session != session);
                    }
                }
            }
            assert(gone.subset_of(before.open().dom()));
            vstd::set_lib::lemma_len_subset(gone, before.open().dom());
            vstd::set_lib::lemma_set_disjoint_lens(self.open().dom(), gone);
            assert(self.open().dom().disjoint(gone));
            assert(self.open().dom() + gone =~= before.open().dom());
            assert forall|q: Seq<char>| #[trigger]
                path_lease::leased_to(self.leased(), q) == (if path_lease::leased_to(
                    before.leased(),
                    q,
                ) == Some(session) && session_holds(before.open(), session, q) {
                    None
                } else {
                    path_lease::leased_to(before.leased(), q)
                }) by {
                law_rows_are_open_patches(before, session, q);
            }
        }
        n
    }
}

/// Once a session is reverted it has no open patch, and none of the paths that its patches touched is
/// leased to it; the leases of other sessions are untouched, and reverting it again finds nothing.
pub proof fn law_session_is_reverted(
    open: Map<u64, PatchView>,
    leased: Map<Seq<char>, SessionId>,
    after: Map<Seq<char>, SessionId>,
    session: SessionId,
    q: Seq<char>,
)
    requires
        path_lease::leased_to(after, q) == (if path_lease::leased_to(leased, q) == Some(session)
            && session_holds(open, session, q) {
            None
        } else {
            path_lease::leased_to(leased, q)
        }),
    ensures
        session_holds(open, session, q) ==> path_lease::leased_to(after, q) != Some(session),
        path_lease::leased_to(leased, q) != Some(session) ==> path_lease::leased_to(after, q)
            == path_lease::leased_to(leased, q),
        patches_of(open.remove_keys(patches_of(open, session)), session) == Set::<u64>::empty(),
        !session_holds(open.remove_keys(patches_of(open, session)), session, q),
{
    let left = open.remove_keys(patches_of(open, session));
    assert(patches_of(left, session) =~= Set::<u64>::empty());
}

/// Where no row is of the session, it touches nothing.
proof fn lemma_session_gone(rows: Seq<(u64, PatchView)>, session: SessionId)
    requires
        forall|i: int| 0 <= i < rows.len() ==> (#[trigger] rows[i]).1.session != session,
    ensures
        forall|q: Seq<char>| !#[trigger] session_touches(rows, session, q),
{
}

/// A patch that is opened and closed again leaves the other patches as they were, and every path
/// counted as often as before; its own paths are leased to nobody, the others to whom they were.
pub proof fn law_patch_gives_back(
    before: OptimisticPatcher,
    opened: OptimisticPatcher,
    closed: OptimisticPatcher,
    session: SessionId,
    asked: Seq<Seq<char>>,
    id: u64,
    q: Seq<char>,
)
    requires
        before.coherent(),
        before.patch_opened(opened, session, asked, id),
        opened.patch_closed(closed, id, session),
    ensures
        closed.open() == before.open(),
        path_lease::count_of(closed.counts(), q) == path_lease::count_of(before.counts(), q),
        path_lease::leased_to(closed.leased(), q) == (if asked.contains(q) {
            None
        } else {
            path_lease::leased_to(before.leased(), q)
        }),
{
    lemma_sorted_same(opened.open()[id].paths, asked, q);
    assert(!before.open().contains_key(id));
    assert(closed.open() =~= before.open());
    assert(path_lease::count_of(opened.counts(), q) == path_lease::count_of(before.counts(), q) + times(
        asked,
        q,
    ));
    assert(path_lease::leased_to(opened.leased(), q) == (if asked.contains(q) {
        Some(session)
    } else {
        path_lease::leased_to(before.leased(), q)
    }));
    assert(path_lease::count_of(closed.counts(), q) == path_lease::count_of(before.counts(), q));
    assert(path_lease::leased_to(closed.leased(), q) == (if asked.contains(q) {
        None
    } else {
        path_lease::leased_to(before.leased(), q)
    }));
}

} // verus!
