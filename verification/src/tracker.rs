//! Reconciliation jobs that branches wait for.

use crate::ids::BranchId;
use vstd::prelude::*;

verus! {

/// The jobs that are still to complete, by branch.
#[derive(Debug)]
pub struct BranchReconciliationTracker {
    jobs: Vec<(BranchId, u64)>,
}

impl View for BranchReconciliationTracker {
    type V = Set<(BranchId, u64)>;

    closed spec fn view(&self) -> Set<(BranchId, u64)> {
        self.jobs@.to_set()
    }
}

impl BranchReconciliationTracker {
    /// No job is waited for.
    pub fn new() -> (r: Self)
        ensures
            r@ == Set::<(BranchId, u64)>::empty(),
    {
        let r = BranchReconciliationTracker { jobs: Vec::new() };
        assert(r@ =~= Set::<(BranchId, u64)>::empty());
        r
    }

    /// A branch waits for a job.
    pub fn register(&mut self, branch: BranchId, job: u64)
        ensures
            final(self)@ == old(self)@.insert((branch, job)),
    {
        let ghost before = self.jobs@;
        self.jobs.push((branch, job));
        proof {
            let after = self.jobs@;
            assert forall|x: (BranchId, u64)| after.contains(x) == (before.contains(x) || x == (
                branch,
                job,
            )) by {
                if before.contains(x) {
                    let i = choose|i: int| 0 <= i < before.len() && before[i] == x;
                    assert(after[i] == x);
                }
                assert(after[before.len() as int] == (branch, job));
            }
            assert(self@ =~= before.to_set().insert((branch, job)));
        }
    }

    /// A branch waits for a job no longer.
    pub fn on_job_complete(&mut self, branch: BranchId, job: u64)
        ensures
            final(self)@ == old(self)@.remove((branch, job)),
    {
        let ghost before = self.jobs@;
        let mut kept: Vec<(BranchId, u64)> = Vec::new();
        let mut i: usize = 0;
        while i < self.jobs.len()
            invariant
                i <= self.jobs.len(),
                before == self.jobs@,
                forall|x: (BranchId, u64)| #[trigger]
                    kept@.contains(x) <==> before.take(i as int).contains(x) && x != (branch, job),
            decreases self.jobs.len() - i,
        {
            let (b, j) = self.jobs[i];
            let ghost k0 = kept@;
            let keep = !(b == branch && j == job);
            if keep {
                kept.push((b, j));
            }
            proof {
                let t = before.take(i as int);
                let u = before.take(i + 1);
                assert(u =~= t.push((b, j)));
                assert forall|x: (BranchId, u64)| #[trigger] kept@.contains(x) <==> u.contains(x) && x
                    != (branch, job) by {
                    lemma_push_contains(t, (b, j), x);
                    lemma_push_contains(k0, (b, j), x);
                    assert(k0.contains(x) <==> t.contains(x) && x != (branch, job));
                }
            }
            i = i + 1;
        }
        self.jobs = kept;
        proof {
            assert(before.take(before.len() as int) =~= before);
            assert(self@ =~= before.to_set().remove((branch, job)));
        }
    }

    /// Whether a branch waits for a job.
    pub fn is_pending(&self, branch: BranchId) -> (r: bool)
        ensures
            r == exists|job: u64| #[trigger] self@.contains((branch, job)),
    {
        let mut i: usize = 0;
        while i < self.jobs.len()
            invariant
                i <= self.jobs.len(),
                forall|j: int| 0 <= j < i ==> (#[trigger] self.jobs@[j]).0 != branch,
            decreases self.jobs.len() - i,
        {
            if self.jobs[i].0 == branch {
                proof {
                    let x = self.jobs@[i as int];
                    assert(self.jobs@.contains(x));
                    assert(self@.contains((branch, x.1)));
                }
                return true;
            }
            i = i + 1;
        }
        proof {
            assert forall|job: u64| !(#[trigger] self@.contains((branch, job))) by {
                if self@.contains((branch, job)) {
                    let j = choose|j: int|
                        0 <= j < self.jobs@.len() && self.jobs@[j] == (branch, job);
                    assert(self.jobs@[j].0 == branch);
                }
            }
        }
        false
    }
}

/// What a sequence contains once a value is pushed.
pub proof fn lemma_push_contains<A>(s: Seq<A>, a: A, x: A)
    ensures
        s.push(a).contains(x) <==> s.contains(x) || x == a,
{
    let t = s.push(a);
    if s.contains(x) {
        let i = choose|i: int| 0 <= i < s.len() && s[i] == x;
        assert(t[i] == x);
    }
    if x == a {
        assert(t[s.len() as int] == x);
    }
    if t.contains(x) && x != a {
        let i = choose|i: int| 0 <= i < t.len() && t[i] == x;
        assert(s[i] == x);
    }
}

/// A job that was registered and completed leaves the branches waiting for what they waited for.
pub proof fn law_completed_job_is_gone(
    jobs: Set<(BranchId, u64)>,
    branch: BranchId,
    job: u64,
    other: (BranchId, u64),
)
    ensures
        !jobs.insert((branch, job)).remove((branch, job)).contains((branch, job)),
        other != (branch, job) ==> jobs.insert((branch, job)).remove((branch, job)).contains(other)
            == jobs.contains(other),
{
}

} // verus!
