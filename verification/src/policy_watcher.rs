//! The policy in force, and when its file is read again.

use vstd::prelude::*;

verus! {

/// The policy in force.
#[derive(Debug)]
pub struct ActiveRankingPolicy<P> {
    pub current: P,
}

impl<P> ActiveRankingPolicy<P> {
    /// A first policy.
    pub fn new(initial: P) -> (r: Self)
        ensures
            r.current == initial,
    {
        ActiveRankingPolicy { current: initial }
    }

    /// Puts a policy in force where it was accepted; one that was refused changes nothing.
    pub fn try_update<E>(&mut self, next: Result<P, E>) -> (r: Result<(), E>)
        ensures
            match next {
                Ok(p) => final(self).current == p && r is Ok,
                Err(e) => final(self).current == old(self).current && r == Err::<(), E>(e),
            },
    {
        match next {
            Ok(p) => {
                self.current = p;
                Ok(())
            },
            Err(e) => Err(e),
        }
    }
}

/// What came of reading the file of a policy.
#[derive(Debug)]
pub enum PolicyReloadOutcome<E, R> {
    Applied,
    RejectedInvalid(E),
    ReadError(R),
}

/// Reads the file of a policy again, though not too often.
#[derive(Debug)]
pub struct PolicyFileReloader<P> {
    pub active: ActiveRankingPolicy<P>,
    pub debounce_ns: u64,
    pub last_fired_ns: Option<u64>,
}

/// An event comes too soon after the last one that counted.
pub open spec fn too_soon(last_ns: Option<u64>, now_ns: u64, debounce_ns: u64) -> bool {
    last_ns matches Some(t) && (if now_ns > t {
        now_ns - t
    } else {
        0
    }) < debounce_ns
}

impl<P> PolicyFileReloader<P> {
    /// A reloader that waits a quarter of a second.
    pub fn new(initial: P) -> (r: Self)
        ensures
            r.active.current == initial,
            r.debounce_ns == 250_000_000,
            r.last_fired_ns is None,
    {
        PolicyFileReloader {
            active: ActiveRankingPolicy::new(initial),
            debounce_ns: 250_000_000,
            last_fired_ns: None,
        }
    }

    /// A reloader that waits for a given time.
    pub fn with_debounce(initial: P, debounce_ns: u64) -> (r: Self)
        ensures
            r.active.current == initial,
            r.debounce_ns == debounce_ns,
            r.last_fired_ns is None,
    {
        PolicyFileReloader {
            active: ActiveRankingPolicy::new(initial),
            debounce_ns,
            last_fired_ns: None,
        }
    }

    /// Takes note that the file may have changed; whether it is to be read now.
    pub fn on_file_event(&mut self, now_ns: u64) -> (r: bool)
        ensures
            r == !too_soon(old(self).last_fired_ns, now_ns, old(self).debounce_ns),
            final(self).last_fired_ns == (if r {
                Some(now_ns)
            } else {
                old(self).last_fired_ns
            }),
            final(self).active == old(self).active,
            final(self).debounce_ns == old(self).debounce_ns,
    {
        if let Some(t) = self.last_fired_ns {
            let passed: u64 = if now_ns > t {
                now_ns - t
            } else {
                0
            };
            if passed < self.debounce_ns {
                return false;
            }
        }
        self.last_fired_ns = Some(now_ns);
        true
    }

    /// Puts in force what was read of the file, where it was read and accepted.
    pub fn reload_now<E, R>(&mut self, read: Result<Result<P, E>, R>) -> (r: PolicyReloadOutcome<
        E,
        R,
    >)
        ensures
            match read {
                Ok(Ok(p)) => r is Applied && final(self).active.current == p,
                Ok(Err(e)) => r == PolicyReloadOutcome::<E, R>::RejectedInvalid(e)
                    && final(self).active.current == old(self).active.current,
                Err(e) => r == PolicyReloadOutcome::<E, R>::ReadError(e)
                    && final(self).active.current == old(self).active.current,
            },
            final(self).last_fired_ns == old(self).last_fired_ns,
            final(self).debounce_ns == old(self).debounce_ns,
    {
        match read {
            Ok(next) => match self.active.try_update(next) {
                Ok(()) => PolicyReloadOutcome::Applied,
                Err(e) => PolicyReloadOutcome::RejectedInvalid(e),
            },
            Err(e) => PolicyReloadOutcome::ReadError(e),
        }
    }
}

/// Of two events within the waiting time, the second does not count; one after it does.
pub proof fn law_events_are_debounced(first_ns: u64, second_ns: u64, debounce_ns: u64)
    requires
        first_ns <= second_ns,
    ensures
        !too_soon(None, first_ns, debounce_ns),
        too_soon(Some(first_ns), second_ns, debounce_ns) <==> second_ns - first_ns < debounce_ns,
{
}

} // verus!
