//! Who may do what: sessions, the paths they may reach, and how many queries they may run at once.

use crate::table;
use crate::table::Table;
use crate::text;
use crate::text::{copy_texts, text_begins_with, text_contains};
use vstd::prelude::*;

verus! {

/// A session of a user.
#[derive(Debug)]
pub struct Session {
    pub id: u64,
    pub admin: bool,
    pub repo_roots: Vec<String>,
}

/// What a session holds.
pub struct SessionView {
    pub id: u64,
    pub admin: bool,
    pub roots: Seq<Seq<char>>,
}

impl View for Session {
    type V = SessionView;

    open spec fn view(&self) -> SessionView {
        SessionView { id: self.id, admin: self.admin, roots: text::texts(self.repo_roots@) }
    }
}

/// Why a request is refused.
#[derive(Debug, Clone, Copy, PartialEq, Eq, Structural)]
pub enum AuthError {
    Unauthorized,
    Forbidden,
    /// An argument is malformed or names nothing.
    InvalidInput,
    /// Someone else holds what is asked for.
    Conflict,
    /// The state does not allow the request.
    State,
    /// The state could not be written down.
    Persist,
    /// Too many queries run at once.
    QuotaExceeded,
    /// The disk is too full for new patches.
    DiskPressure,
    /// The engine has not started up.
    NotReady,
}

/// The sessions that are known.
pub struct AuthProvider {
    sessions: Table<u64, Session>,
}

impl View for AuthProvider {
    type V = Map<u64, SessionView>;

    closed spec fn view(&self) -> Map<u64, SessionView> {
        self.sessions@.map_values(|s: Session| s@)
    }
}

/// A path lies below one of some roots and does not climb up.
pub open spec fn path_allowed(roots: Seq<Seq<char>>, path: Seq<char>) -> bool {
    &&& !text::contains_text(path, ".."@)
    &&& exists|i: int| 0 <= i < roots.len() && text::begins_with(path, #[trigger] roots[i])
}

impl Default for AuthProvider {
    /// No session is known.
    fn default() -> (r: Self)
        ensures
            r@ == Map::<u64, SessionView>::empty(),
    {
        AuthProvider::new()
    }
}

impl AuthProvider {
    /// No session is known.
    pub fn new() -> (r: Self)
        ensures
            r@ == Map::<u64, SessionView>::empty(),
    {
        let r = AuthProvider { sessions: Table::new() };
        assert(r@ =~= Map::<u64, SessionView>::empty());
        r
    }

    /// Makes a session known.
    pub fn register(&mut self, s: Session)
        ensures
            final(self)@ == old(self)@.insert(s.id, s@),
    {
        let ghost before = self@;
        let ghost sv = s@;
        let id = s.id;
        self.sessions.insert(id, s);
        assert(self@ =~= before.insert(id, sv));
    }

    /// Finds a session.
    pub fn require_session(&self, id: u64) -> (r: Result<Session, AuthError>)
        ensures
            match r {
                Ok(s) => self@.contains_pair(id, s@),
                Err(e) => !self@.contains_key(id) && e == AuthError::Unauthorized,
            },
    {
        match self.sessions.get(&id) {
            Some(s) => Ok(
                Session { id: s.id, admin: s.admin, repo_roots: copy_texts(&s.repo_roots) },
            ),
            None => Err(AuthError::Unauthorized),
        }
    }

    /// Finds a session that may do what only administrators may.
    pub fn require_admin(&self, id: u64) -> (r: Result<Session, AuthError>)
        ensures
            match r {
                Ok(s) => self@.contains_pair(id, s@) && s.admin,
                Err(e) => if self@.contains_key(id) {
                    !self@[id].admin && e == AuthError::Forbidden
                } else {
                    e == AuthError::Unauthorized
                },
            },
    {
        match self.require_session(id) {
            Ok(s) => {
                if s.admin {
                    Ok(s)
                } else {
                    Err(AuthError::Forbidden)
                }
            },
            Err(e) => Err(e),
        }
    }

    /// Whether a session may reach a path.
    pub fn validate_path(&self, session_id: u64, path: &str) -> (r: Result<(), AuthError>)
        ensures
            match r {
                Ok(_) => self@.contains_key(session_id) && path_allowed(
                    self@[session_id].roots,
                    path@,
                ),
                Err(e) => if self@.contains_key(session_id) {
                    !path_allowed(self@[session_id].roots, path@) && e == AuthError::Forbidden
                } else {
                    e == AuthError::Unauthorized
                },
            },
    {
        let s = match self.require_session(session_id) {
            Ok(s) => s,
            Err(e) => {
                return Err(e);
            },
        };
        if text_contains(path, "..") {
            return Err(AuthError::Forbidden);
        }
        let ghost roots = s@.roots;
        let mut i: usize = 0;
        while i < s.repo_roots.len()
            invariant
                i <= s.repo_roots.len(),
                roots == text::texts(s.repo_roots@),
                roots == self@[session_id].roots,
                self@.contains_key(session_id),
                !text::contains_text(path@, ".."@),
                forall|j: int| 0 <= j < i ==> !text::begins_with(path@, #[trigger] roots[j]),
            decreases s.repo_roots.len() - i,
        {
            assert(roots[i as int] == s.repo_roots@[i as int]@);
            if text_begins_with(path, s.repo_roots[i].as_str()) {
                return Ok(());
            }
            i = i + 1;
        }
        Err(AuthError::Forbidden)
    }
}

/// A path that climbs up is never allowed, and neither is any path where there are no roots.
pub proof fn law_no_path_climbs(roots: Seq<Seq<char>>, path: Seq<char>)
    ensures
        text::contains_text(path, ".."@) ==> !path_allowed(roots, path),
        roots.len() == 0 ==> !path_allowed(roots, path),
{
}

/// Why a query is not let in.
#[derive(Debug, Clone, Copy, PartialEq, Eq, Structural)]
pub enum QuotaError {
    TooManyConcurrentQueries,
}

/// How many queries each session runs, and how many it may run at once.
pub struct QuotaTracker {
    max_concurrent_queries: u32,
    active: Table<u64, u32>,
}

impl View for QuotaTracker {
    type V = Map<u64, u32>;

    closed spec fn view(&self) -> Map<u64, u32> {
        self.active@
    }
}

/// How many queries a session runs.
pub open spec fn running(m: Map<u64, u32>, session: u64) -> u32 {
    if m.contains_key(session) {
        m[session]
    } else {
        0
    }
}

/// What the rows of a table add up to.
pub open spec fn rows_total(rows: Seq<(u64, u32)>) -> nat
    decreases rows.len(),
{
    if rows.len() == 0 {
        0
    } else {
        rows_total(rows.drop_last()) + rows.last().1 as nat
    }
}

/// What the rows add up to once one of them has another count.
proof fn lemma_total_after_update(rows: Seq<(u64, u32)>, i: int, session: u64, n: u32)
    requires
        0 <= i < rows.len(),
    ensures
        rows_total(rows.update(i, (session, n))) == rows_total(rows) - rows[i].1 + n,
    decreases rows.len(),
{
    let after = rows.update(i, (session, n));
    if i == rows.len() - 1 {
        assert(after.drop_last() =~= rows.drop_last());
    } else {
        lemma_total_after_update(rows.drop_last(), i, session, n);
        assert(after.drop_last() =~= rows.drop_last().update(i, (session, n)));
    }
}

/// What the rows add up to once a session has another count.
proof fn lemma_total_after_insert(
    rows: Seq<(u64, u32)>,
    after: Seq<(u64, u32)>,
    session: u64,
    n: u32,
)
    requires
        table::names_differ(rows),
        after =~= (if table::map_of(rows).contains_key(session) {
            Seq::new(
                rows.len(),
                |i: int|
                    if rows[i].0 == session {
                        (session, n)
                    } else {
                        rows[i]
                    },
            )
        } else {
            rows.push((session, n))
        }),
    ensures
        rows_total(after) == rows_total(rows) - running(table::map_of(rows), session) + n,
{
    table::lemma_map_of(rows);
    if table::map_of(rows).contains_key(session) {
        let i = choose|i: int| 0 <= i < rows.len() && (#[trigger] rows[i]).0 == session;
        lemma_total_after_update(rows, i, session, n);
        assert(after =~= rows.update(i, (session, n)));
    } else {
        assert(after.drop_last() =~= rows);
    }
}

/// The first rows add up to no more than all.
proof fn lemma_rows_total(rows: Seq<(u64, u32)>, n: int)
    requires
        0 <= n <= rows.len(),
    ensures
        rows_total(rows.take(n)) <= rows_total(rows),
    decreases rows.len() - n,
{
    if n < rows.len() {
        assert(rows.take(n + 1).drop_last() =~= rows.take(n));
        lemma_rows_total(rows, n + 1);
    } else {
        assert(rows.take(n) =~= rows);
    }
}

/// The sessions once one of them asks to run a query: it is on record from then on.
pub open spec fn quota_asked(m: Map<u64, u32>, max: u32, session: u64) -> Map<u64, u32> {
    if running(m, session) >= max {
        m.insert(session, running(m, session))
    } else {
        m.insert(session, (running(m, session) + 1) as u32)
    }
}

/// The sessions once one of them has ended a query.
pub open spec fn quota_given_back(m: Map<u64, u32>, session: u64) -> Map<u64, u32> {
    if m.contains_key(session) {
        m.insert(
            session,
            if m[session] > 0 {
                (m[session] - 1) as u32
            } else {
                0
            },
        )
    } else {
        m
    }
}

impl Default for QuotaTracker {
    /// No session runs a query, or may run one.
    fn default() -> (r: Self)
        ensures
            r.tallied(),
            r.total() == 0,
            r@ == Map::<u64, u32>::empty(),
            r.max() == 0,
    {
        QuotaTracker::new(0)
    }
}

impl QuotaTracker {
    /// How many queries a session may run at once.
    pub closed spec fn max(&self) -> u32 {
        self.max_concurrent_queries
    }

    /// The sessions in the order in which they first asked, with the queries that they run.
    pub closed spec fn counts(&self) -> Seq<(u64, u32)> {
        self.active.rows()
    }

    /// The counts are the sessions on record, each once.
    pub open spec fn tallied(&self) -> bool {
        &&& table::names_differ(self.counts())
        &&& self@ == table::map_of(self.counts())
    }

    /// How many queries run.
    pub open spec fn total(&self) -> nat {
        rows_total(self.counts())
    }

    /// No query runs.
    pub fn new(max_concurrent_queries: u32) -> (r: Self)
        ensures
            r.tallied(),
            r.total() == 0,
            r@ == Map::<u64, u32>::empty(),
            r.max() == max_concurrent_queries,
            r.counts() == Seq::<(u64, u32)>::empty(),
    {
        QuotaTracker { max_concurrent_queries, active: Table::new() }
    }

    /// Lets a query of a session in, unless it runs as many as it may.
    pub fn acquire_query(&mut self, session_id: u64) -> (r: Result<(), QuotaError>)
        ensures
            final(self)@ == quota_asked(old(self)@, old(self).max(), session_id),
            final(self).max() == old(self).max(),
            r is Ok <==> running(old(self)@, session_id) < old(self).max(),
            final(self).tallied(),
            final(self).total() == old(self).total() + (if r is Ok {
                1nat
            } else {
                0
            }),
    {
        let _ = self.active.len();
        let ghost rows = self.active.rows();
        let n: u32 = match self.active.get(&session_id) {
            Some(x) => *x,
            None => 0,
        };
        if n >= self.max_concurrent_queries {
            self.active.insert(session_id, n);
            let _ = self.active.len();
            proof {
                lemma_total_after_insert(rows, self.active.rows(), session_id, n);
            }
            return Err(QuotaError::TooManyConcurrentQueries);
        }
        self.active.insert(session_id, n + 1);
        let _ = self.active.len();
        proof {
            lemma_total_after_insert(rows, self.active.rows(), session_id, (n + 1) as u32);
        }
        Ok(())
    }

    /// Takes note that a query of a session has ended.
    pub fn release_query(&mut self, session_id: u64)
        ensures
            final(self)@ == quota_given_back(old(self)@, session_id),
            final(self).max() == old(self).max(),
            final(self).tallied(),
            final(self).total() == old(self).total() - (if running(old(self)@, session_id) > 0 {
                1int
            } else {
                0
            }),
    {
        let _ = self.active.len();
        let ghost rows = self.active.rows();
        let known: Option<u32> = match self.active.get(&session_id) {
            Some(x) => Some(*x),
            None => None,
        };
        if let Some(n) = known {
            let left: u32 = if n > 0 {
                n - 1
            } else {
                0
            };
            self.active.insert(session_id, left);
            let _ = self.active.len();
            proof {
                lemma_total_after_insert(rows, self.active.rows(), session_id, left);
            }
        }
    }

    /// Counts the queries that run.
    pub fn active_count(&self) -> (n: u32)
        requires
            self.total() <= u32::MAX,
        ensures
            n == self.total(),
            self.tallied(),
    {
        let len = self.active.len();
        let ghost rows = self.active.rows();
        let mut n: u32 = 0;
        let mut i: usize = 0;
        assert(rows.take(0) =~= Seq::<(u64, u32)>::empty());
        while i < len
            invariant
                i <= len,
                rows == self.active.rows(),
                len == rows.len(),
                rows_total(rows) <= u32::MAX,
                n == rows_total(rows.take(i as int)),
            decreases len - i,
        {
            proof {
                assert(rows.take(i + 1).drop_last() =~= rows.take(i as int));
                lemma_rows_total(rows, i + 1);
            }
            n = n + *self.active.value_at(i);
            i = i + 1;
        }
        assert(rows.take(rows.len() as int) =~= rows);
        n
    }

    /// Tells how many queries a session may run at once.
    pub fn max_concurrent(&self) -> (r: u32)
        ensures
            r == self.max(),
    {
        self.max_concurrent_queries
    }
}

/// A query of a session that was let in, until it is given back.
#[derive(Debug)]
pub struct QuotaGuard {
    session_id: u64,
}

impl QuotaGuard {
    /// The session whose query was let in.
    pub closed spec fn session(&self) -> u64 {
        self.session_id
    }

    /// Lets a query of a session in.
    pub fn acquire(tracker: &mut QuotaTracker, session_id: u64) -> (r: Result<Self, QuotaError>)
        ensures
            final(tracker)@ == quota_asked(old(tracker)@, old(tracker).max(), session_id),
            final(tracker).max() == old(tracker).max(),
            r is Ok <==> running(old(tracker)@, session_id) < old(tracker).max(),
            r matches Ok(g) ==> g.session() == session_id,
            final(tracker).tallied(),
            final(tracker).total() == old(tracker).total() + (if r is Ok {
                1nat
            } else {
                0
            }),
    {
        match tracker.acquire_query(session_id) {
            Ok(_) => Ok(QuotaGuard { session_id }),
            Err(e) => Err(e),
        }
    }

    /// Gives the query back.
    pub fn release(self, tracker: &mut QuotaTracker)
        ensures
            final(tracker)@ == quota_given_back(old(tracker)@, self.session()),
            final(tracker).max() == old(tracker).max(),
            final(tracker).tallied(),
            final(tracker).total() == old(tracker).total() - (if running(
                old(tracker)@,
                self.session(),
            ) > 0 {
                1int
            } else {
                0
            }),
    {
        tracker.release_query(self.session_id);
    }
}

/// A query that was let in and has ended leaves room for as many as before; a session that runs as
/// many as it may is refused, and no other session is touched.
pub proof fn law_quota_comes_back(m: Map<u64, u32>, max: u32, session: u64, other: u64)
    requires
        other != session,
    ensures
        running(m, session) < max ==> running(
            quota_given_back(quota_asked(m, max, session), session),
            session,
        ) == running(m, session),
        running(m, session) >= max ==> running(quota_asked(m, max, session), session) == running(
            m,
            session,
        ),
        running(quota_asked(m, max, session), other) == running(m, other),
        running(quota_given_back(m, session), other) == running(m, other),
{
}

/// No session ever runs more queries than it may.
pub proof fn law_quota_holds(m: Map<u64, u32>, max: u32, session: u64, other: u64)
    requires
        running(m, other) <= max,
    ensures
        running(quota_asked(m, max, session), other) <= max,
        running(quota_given_back(m, session), other) <= max,
{
}

} // verus!
