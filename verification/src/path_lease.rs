//! Leases on paths, and the paths that unconfirmed patches touch.

use crate::hex;
use crate::hex::decimal_text;
use crate::seqs;
use crate::table::Table;
use crate::text;
use crate::text::{append_text, owned};
use vstd::prelude::*;

verus! {

/// A client session.
#[derive(Debug, Clone, Copy, PartialEq, Eq, Hash, Structural)]
pub struct SessionId(pub u64);

/// Why a lease was refused.
#[derive(Debug, Clone, Copy, PartialEq, Eq, Structural)]
pub enum LeaseError {
    /// Another session has the path.
    Conflict { holder: SessionId },
}

/// The message on a path that another session has.
pub open spec fn lease_message(e: LeaseError) -> Seq<char> {
    match e {
        LeaseError::Conflict { holder } => "409 conflict \u{2014} path leased by session SessionId("@
            + hex::decimal(holder.0 as nat) + ")"@,
    }
}

impl LeaseError {
    /// The message for a person.
    pub fn message(&self) -> (r: String)
        ensures
            r@ == lease_message(*self),
    {
        match self {
            LeaseError::Conflict { holder } => {
                let mut out = owned("409 conflict \u{2014} path leased by session SessionId(");
                append_text(&mut out, decimal_text(holder.0).as_str());
                append_text(&mut out, ")");
                out
            },
        }
    }
}

/// Which session has which path.
pub struct PathLeaseManager {
    leases: Table<String, SessionId>,
}

impl View for PathLeaseManager {
    type V = Map<Seq<char>, SessionId>;

    closed spec fn view(&self) -> Map<Seq<char>, SessionId> {
        self.leases@
    }
}

/// The session that has a path.
pub open spec fn leased_to(m: Map<Seq<char>, SessionId>, path: Seq<char>) -> Option<SessionId> {
    if m.contains_key(path) {
        Some(m[path])
    } else {
        None
    }
}

/// Leases that tell the same of every path are the same.
pub proof fn lemma_same_leases(a: Map<Seq<char>, SessionId>, b: Map<Seq<char>, SessionId>)
    requires
        forall|q: Seq<char>| #[trigger] leased_to(a, q) == leased_to(b, q),
    ensures
        a == b,
{
    assert forall|q: Seq<char>| #[trigger] a.contains_key(q) == b.contains_key(q) by {
        assert(leased_to(a, q) == leased_to(b, q));
    }
    assert forall|q: Seq<char>| a.contains_key(q) implies #[trigger] a[q] == b[q] by {
        assert(leased_to(a, q) == leased_to(b, q));
    }
    assert(a.dom() =~= b.dom());
    assert(a =~= b);
}

/// Another session than `session` has the path.
pub open spec fn leased_away(
    m: Map<Seq<char>, SessionId>,
    path: Seq<char>,
    session: SessionId,
) -> bool {
    m.contains_key(path) && m[path] != session
}

/// The leases once `session` has given a path back.
pub open spec fn lease_released(
    m: Map<Seq<char>, SessionId>,
    path: Seq<char>,
    session: SessionId,
) -> Map<Seq<char>, SessionId> {
    if leased_to(m, path) == Some(session) {
        m.remove(path)
    } else {
        m
    }
}

impl Default for PathLeaseManager {
    /// No path is leased.
    fn default() -> (r: Self)
        ensures
            r@ == Map::<Seq<char>, SessionId>::empty(),
    {
        PathLeaseManager::new()
    }
}

impl PathLeaseManager {
    /// No leases.
    pub fn new() -> (r: Self)
        ensures
            r@ == Map::<Seq<char>, SessionId>::empty(),
    {
        PathLeaseManager { leases: Table::new() }
    }

    /// Takes a path for a session, which may have it already.
    pub fn acquire(&mut self, path: &str, session: SessionId) -> (r: Result<(), LeaseError>)
        ensures
            r is Ok <==> !leased_away(old(self)@, path@, session),
            r is Ok ==> final(self)@ == old(self)@.insert(path@, session),
            r matches Err(LeaseError::Conflict { holder }) ==> leased_to(old(self)@, path@) == Some(
                holder,
            ),
            r is Err ==> final(self)@ == old(self)@,
    {
        match self.holder(path) {
            Some(h) => {
                if h != session {
                    return Err(LeaseError::Conflict { holder: h });
                }
            },
            None => {},
        }
        self.leases.insert(owned(path), session);
        Ok(())
    }

    /// Gives a path back, if the session has it.
    pub fn release(&mut self, path: &str, session: SessionId)
        ensures
            final(self)@ == lease_released(old(self)@, path@, session),
    {
        if let Some(h) = self.holder(path) {
            if h == session {
                self.leases.remove(&owned(path));
            }
        }
    }

    /// The session that has a path.
    pub fn holder(&self, path: &str) -> (r: Option<SessionId>)
        ensures
            r == leased_to(self@, path@),
    {
        match self.leases.get(&owned(path)) {
            Some(s) => Some(*s),
            None => None,
        }
    }

    /// Every lease.
    pub fn active_paths(&self) -> (r: Vec<(String, SessionId)>)
        ensures
            r@.len() == self@.dom().len(),
            forall|i: int, j: int|
                0 <= i < j < r@.len() ==> (#[trigger] r@[i]).0@ != (#[trigger] r@[j]).0@,
            forall|i: int|
                0 <= i < r@.len() ==> self@.contains_pair((#[trigger] r@[i]).0@, r@[i].1),
            forall|p: Seq<char>| #[trigger]
                self@.contains_key(p) ==> exists|i: int|
                    0 <= i < r@.len() && (#[trigger] r@[i]).0@ == p,
    {
        let n = self.leases.len();
        let mut out: Vec<(String, SessionId)> = Vec::new();
        let mut i: usize = 0;
        while i < n
            invariant
                i <= n,
                n == self.leases.rows().len(),
                self.leases.consistent(),
                out.len() == i,
                forall|j: int|
                    0 <= j < i ==> (#[trigger] out@[j]).0@ == self.leases.rows()[j].0 && out@[j].1
                        == self.leases.rows()[j].1,
            decreases n - i,
        {
            out.push((self.leases.key_at(i).clone(), *self.leases.value_at(i)));
            i = i + 1;
        }
        proof {
            assert forall|j: int| 0 <= j < out@.len() implies self@.contains_pair(
                (#[trigger] out@[j]).0@,
                out@[j].1,
            ) by {
                assert(self.leases.rows()[j].0 == out@[j].0@);
            }
            assert forall|a: int, b: int| 0 <= a < b < out@.len() implies (#[trigger] out@[a]).0@
                != (#[trigger] out@[b]).0@ by {
                assert(self.leases.rows()[a].0 != self.leases.rows()[b].0);
            }
            assert forall|p: Seq<char>| #[trigger] self@.contains_key(p) implies exists|j: int|
                0 <= j < out@.len() && (#[trigger] out@[j]).0@ == p by {
                let j = choose|j: int|
                    0 <= j < self.leases.rows().len() && (#[trigger] self.leases.rows()[j]).0 == p;
                assert(out@[j].0@ == p);
            }
        }
        out
    }

    /// Whether there is no lease.
    pub fn is_empty(&self) -> (r: bool)
        ensures
            r == self@.dom().is_empty(),
    {
        let n = self.leases.len();
        proof {
            if n > 0 {
                assert(self@.contains_key(self.leases.rows()[0].0));
            } else {
                assert forall|p: Seq<char>| !self@.dom().contains(p) by {
                    if self@.contains_key(p) {
                        let j = choose|j: int|
                            0 <= j < self.leases.rows().len() && (
                            #[trigger] self.leases.rows()[j]).0 == p;
                    }
                }
                assert(self@.dom() =~= Set::empty());
            }
        }
        n == 0
    }
}

/// How many open patches touch each path.
pub struct SpeculativePathTracker {
    counts: Table<String, u32>,
}

impl View for SpeculativePathTracker {
    type V = Map<Seq<char>, u32>;

    closed spec fn view(&self) -> Map<Seq<char>, u32> {
        self.counts@
    }
}

/// How often a path was registered and not unregistered since.
pub open spec fn count_of(m: Map<Seq<char>, u32>, path: Seq<char>) -> nat {
    if m.contains_key(path) {
        m[path] as nat
    } else {
        0
    }
}

/// A path is listed only while something touches it.
pub open spec fn counts_positive(m: Map<Seq<char>, u32>) -> bool {
    forall|p: Seq<char>| #[trigger] m.contains_key(p) ==> m[p] > 0
}

/// The counts once a path is registered once more.
pub open spec fn registered(m: Map<Seq<char>, u32>, path: Seq<char>) -> Map<Seq<char>, u32> {
    m.insert(path, (count_of(m, path) + 1) as u32)
}

/// The counts once a path is unregistered once.
pub open spec fn unregistered(m: Map<Seq<char>, u32>, path: Seq<char>) -> Map<Seq<char>, u32> {
    if count_of(m, path) > 1 {
        m.insert(path, (count_of(m, path) - 1) as u32)
    } else {
        m.remove(path)
    }
}

impl Default for SpeculativePathTracker {
    /// No path is touched.
    fn default() -> (r: Self)
        ensures
            r@ == Map::<Seq<char>, u32>::empty(),
            counts_positive(r@),
    {
        SpeculativePathTracker::new()
    }
}

impl SpeculativePathTracker {
    /// No paths.
    pub fn new() -> (r: Self)
        ensures
            r@ == Map::<Seq<char>, u32>::empty(),
            counts_positive(r@),
    {
        SpeculativePathTracker { counts: Table::new() }
    }

    /// Counts one more patch that touches a path.
    pub fn register(&mut self, path: &str)
        requires
            count_of(old(self)@, path@) < u32::MAX,
        ensures
            final(self)@ == registered(old(self)@, path@),
            counts_positive(old(self)@) ==> counts_positive(final(self)@),
    {
        let key = owned(path);
        let n: u32 = match self.counts.get(&key) {
            Some(c) => *c,
            None => 0,
        };
        self.counts.insert(key, n + 1);
    }

    /// Counts one patch less that touches a path.
    pub fn unregister(&mut self, path: &str)
        ensures
            final(self)@ == unregistered(old(self)@, path@),
            counts_positive(old(self)@) ==> counts_positive(final(self)@),
    {
        let key = owned(path);
        let n: Option<u32> = match self.counts.get(&key) {
            Some(c) => Some(*c),
            None => None,
        };
        match n {
            Some(c) => {
                if c > 1 {
                    self.counts.insert(key, c - 1);
                } else {
                    self.counts.remove(&key);
                }
            },
            None => {
                assert(self@ =~= self@.remove(path@));
            },
        }
    }

    /// Whether some patch touches one of the paths.
    pub fn intersects(&self, affected: &Vec<String>) -> (r: bool)
        ensures
            r == exists|i: int|
                0 <= i < affected@.len() && self@.contains_key(#[trigger] affected@[i]@),
    {
        let mut i: usize = 0;
        while i < affected.len()
            invariant
                i <= affected.len(),
                forall|j: int| 0 <= j < i ==> !self@.contains_key(#[trigger] affected@[j]@),
            decreases affected.len() - i,
        {
            if self.counts.contains_key(&affected[i]) {
                assert(self@.contains_key(affected@[i as int]@));
                return true;
            }
            i = i + 1;
        }
        false
    }

    /// Those of the paths that some patch touches.
    pub fn conflicting_paths(&self, affected: &Vec<String>) -> (r: Vec<String>)
        ensures
            text::texts(r@) == text::texts(affected@).filter(|p: Seq<char>| self@.contains_key(p)),
    {
        let ghost keep = |p: Seq<char>| self@.contains_key(p);
        let mut out: Vec<String> = Vec::new();
        let mut i: usize = 0;
        proof {
            seqs::lemma_filter_ends(text::texts(affected@), keep);
            assert(text::texts(out@) =~= Seq::<Seq<char>>::empty());
        }
        while i < affected.len()
            invariant
                i <= affected.len(),
                keep == (|p: Seq<char>| self@.contains_key(p)),
                text::texts(out@) == text::texts(affected@).take(i as int).filter(keep),
            decreases affected.len() - i,
        {
            proof {
                seqs::lemma_filter_step(text::texts(affected@), keep, i as int);
            }
            if self.counts.contains_key(&affected[i]) {
                let ghost before = out@;
                out.push(affected[i].clone());
                assert(text::texts(out@) =~= text::texts(before).push(affected@[i as int]@));
            }
            i = i + 1;
        }
        proof {
            seqs::lemma_filter_ends(text::texts(affected@), keep);
        }
        out
    }

    /// Every path with its count.
    pub fn path_counts(&self) -> (r: Vec<(String, u32)>)
        ensures
            r@.len() == self@.dom().len(),
            forall|i: int, j: int|
                0 <= i < j < r@.len() ==> (#[trigger] r@[i]).0@ != (#[trigger] r@[j]).0@,
            forall|i: int|
                0 <= i < r@.len() ==> self@.contains_pair((#[trigger] r@[i]).0@, r@[i].1),
            forall|p: Seq<char>| #[trigger]
                self@.contains_key(p) ==> exists|i: int|
                    0 <= i < r@.len() && (#[trigger] r@[i]).0@ == p,
    {
        let n = self.counts.len();
        let mut out: Vec<(String, u32)> = Vec::new();
        let mut i: usize = 0;
        while i < n
            invariant
                i <= n,
                n == self.counts.rows().len(),
                self.counts.consistent(),
                out.len() == i,
                forall|j: int|
                    0 <= j < i ==> (#[trigger] out@[j]).0@ == self.counts.rows()[j].0 && out@[j].1
                        == self.counts.rows()[j].1,
            decreases n - i,
        {
            out.push((self.counts.key_at(i).clone(), *self.counts.value_at(i)));
            i = i + 1;
        }
        proof {
            assert forall|j: int| 0 <= j < out@.len() implies self@.contains_pair(
                (#[trigger] out@[j]).0@,
                out@[j].1,
            ) by {
                assert(self.counts.rows()[j].0 == out@[j].0@);
            }
            assert forall|a: int, b: int| 0 <= a < b < out@.len() implies (#[trigger] out@[a]).0@
                != (#[trigger] out@[b]).0@ by {
                assert(self.counts.rows()[a].0 != self.counts.rows()[b].0);
            }
            assert forall|p: Seq<char>| #[trigger] self@.contains_key(p) implies exists|j: int|
                0 <= j < out@.len() && (#[trigger] out@[j]).0@ == p by {
                let j = choose|j: int|
                    0 <= j < self.counts.rows().len() && (#[trigger] self.counts.rows()[j]).0 == p;
                assert(out@[j].0@ == p);
            }
        }
        out
    }
}

/// A path leased to one session is refused to another until it is given back.
pub proof fn law_lease_serializes(
    m: Map<Seq<char>, SessionId>,
    path: Seq<char>,
    a: SessionId,
    b: SessionId,
)
    requires
        a != b,
        !leased_away(m, path, a),
    ensures
        leased_away(m.insert(path, a), path, b),
        !leased_away(lease_released(m.insert(path, a), path, a), path, b),
{
}

/// A path that is registered and then unregistered counts as before.
pub proof fn law_register_then_unregister(m: Map<Seq<char>, u32>, path: Seq<char>)
    requires
        counts_positive(m),
        count_of(m, path) < u32::MAX,
    ensures
        unregistered(registered(m, path), path) == m,
{
    assert(unregistered(registered(m, path), path) =~= m);
}

} // verus!
