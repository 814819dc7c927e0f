//! The worker that pays off owed deletes.

use crate::vector_cleanup_queue::VectorCleanupQueue;
use crate::vector_store;
use crate::vector_store::{Asked, VectorChunkStore};
use vstd::prelude::*;

verus! {

/// What one pump of the queue did.
#[derive(Debug, Clone, Copy, PartialEq, Eq, Structural, Default)]
pub struct VectorCleanupDrainReport {
    pub attempted: usize,
    pub deleted_ok: usize,
    pub requeued: usize,
}

/// The worker and its queue.
pub struct VectorCleanupWorker {
    queue: VectorCleanupQueue,
}

/// The queue after deletes that came to `told`, each of the chunk at its head: a refused chunk goes
/// last, a deleted one is gone.
pub open spec fn drained(q: Seq<[u8; 32]>, told: Seq<bool>) -> Seq<[u8; 32]>
    decreases told.len(),
{
    if told.len() == 0 {
        q
    } else {
        let front = drained(q, told.drop_last());
        if told.last() {
            front.drop_first()
        } else {
            front.drop_first().push(front[0])
        }
    }
}

/// The deletes that were asked on the way.
pub open spec fn asked_of(q: Seq<[u8; 32]>, told: Seq<bool>) -> Seq<Asked>
    decreases told.len(),
{
    if told.len() == 0 {
        Seq::empty()
    } else {
        asked_of(q, told.drop_last()).push((drained(q, told.drop_last())[0], told.last()))
    }
}

/// How many of the answers are `done`.
pub open spec fn told_so(told: Seq<bool>, done: bool) -> nat
    decreases told.len(),
{
    if told.len() == 0 {
        0
    } else {
        told_so(told.drop_last(), done) + (if told.last() == done {
            1nat
        } else {
            0
        })
    }
}

/// There was a chunk at the head of the queue each time.
pub open spec fn within(q: Seq<[u8; 32]>, told: Seq<bool>) -> bool {
    forall|i: int|
        0 <= i < told.len() ==> (#[trigger] drained(q, told.take(i))).len() > 0
}

/// The delay before the next attempt after `k` failures.
pub open spec fn ladder(k: nat) -> nat
    decreases k,
{
    if k == 0 {
        250
    } else {
        2 * ladder((k - 1) as nat)
    }
}

/// The delay doubles up to the tenth failure.
proof fn lemma_ladder_bound(k: nat)
    requires
        k <= 10,
    ensures
        ladder(k) <= 256_000,
{
    reveal_with_fuel(ladder, 11);
    lemma_ladder_grows(k, 10);
}

/// More failures, no shorter delay.
proof fn lemma_ladder_grows(a: nat, b: nat)
    requires
        a <= b,
    ensures
        ladder(a) <= ladder(b),
    decreases b,
{
    if a < b {
        lemma_ladder_grows(a, (b - 1) as nat);
    }
}

impl VectorCleanupWorker {
    /// The chunks still owed.
    pub closed spec fn owed(&self) -> Seq<[u8; 32]> {
        self.queue@
    }

    /// A worker on a queue.
    pub fn new(queue: VectorCleanupQueue) -> (r: Self)
        ensures
            r.owed() == queue@,
    {
        VectorCleanupWorker { queue }
    }

    /// The queue.
    pub fn queue(&self) -> (r: &VectorCleanupQueue)
        ensures
            r@ == self.owed(),
    {
        &self.queue
    }

    /// Attempts up to `max_batch` deletes from the head of the queue; what is refused goes last. It
    /// stops early where nothing is owed any more.
    pub fn drain_batch<S: VectorChunkStore>(&mut self, vector: &mut S, max_batch: usize) -> (r:
        VectorCleanupDrainReport)
        ensures
            ({
                let told = vector_store::answers_since(final(vector).asked(), old(vector).asked());
                let asked = asked_of(old(self).owed(), told);
                &&& within(old(self).owed(), told)
                &&& final(self).owed() == drained(old(self).owed(), told)
                &&& final(vector).asked() == old(vector).asked() + asked
                &&& final(vector).chunks() == old(vector).chunks().difference(
                    vector_store::taken_out(asked),
                )
                &&& forall|i: int|
                    0 <= i < asked.len() ==> old(vector).answers(
                        (#[trigger] asked[i]).0,
                        asked[i].1,
                    )
                &&& r.attempted == told.len()
                &&& r.deleted_ok == told_so(told, true)
                &&& r.requeued == told_so(told, false)
            }),
            r.attempted == r.deleted_ok + r.requeued,
            r.attempted <= max_batch,
            r.attempted < max_batch ==> final(self).owed().len() == 0,
            final(self).owed().len() == old(self).owed().len() - r.deleted_ok,
            forall|c: [u8; 32], done: bool| #[trigger]
                final(vector).answers(c, done) ==> old(vector).answers(c, done),
    {
        let mut report = VectorCleanupDrainReport { attempted: 0, deleted_ok: 0, requeued: 0 };
        let ghost q0 = self.owed();
        let ghost a0 = vector.asked();
        let ghost c0 = vector.chunks();
        let ghost mut told: Seq<bool> = Seq::empty();
        proof {
            assert(vector_store::answers_since(a0, a0) =~= told);
            assert(a0 + asked_of(q0, told) =~= a0);
            assert(c0.difference(vector_store::taken_out(asked_of(q0, told))) =~= c0);
        }
        while report.attempted < max_batch
            invariant
                q0 == old(self).owed(),
                a0 == old(vector).asked(),
                c0 == old(vector).chunks(),
                report.attempted <= max_batch,
                told == vector_store::answers_since(vector.asked(), a0),
                vector.asked() == a0 + asked_of(q0, told),
                vector.chunks() == c0.difference(vector_store::taken_out(asked_of(q0, told))),
                within(q0, told),
                self.owed() == drained(q0, told),
                self.owed().len() == q0.len() - report.deleted_ok,
                asked_of(q0, told).len() == told.len(),
                forall|i: int|
                    0 <= i < told.len() ==> old(vector).answers(
                        (#[trigger] asked_of(q0, told)[i]).0,
                        asked_of(q0, told)[i].1,
                    ),
                forall|c: [u8; 32], done: bool| #[trigger]
                    vector.answers(c, done) ==> old(vector).answers(c, done),
                report.attempted == told.len(),
                report.deleted_ok == told_so(told, true),
                report.requeued == told_so(told, false),
                report.attempted == report.deleted_ok + report.requeued,
            decreases max_batch - report.attempted,
        {
            let ghost qi = self.owed();
            let ghost asked = asked_of(q0, told);
            match self.queue.dequeue() {
                None => {
                    return report;
                },
                Some(cid) => {
                    report.attempted = report.attempted + 1;
                    let out = vector.delete_chunk(&cid);
                    let ghost before = told;
                    proof {
                        told = told.push(out is Ok);
                        assert(told.drop_last() =~= before);
                        let now = asked_of(q0, told);
                        assert(now =~= asked.push((cid, out is Ok)));
                        assert(a0 + now =~= (a0 + asked).push((cid, out is Ok)));
                        assert(vector_store::answers_since(vector.asked(), a0) =~= told) by {
                            assert((a0 + now).skip(a0.len() as int) =~= now);
                            lemma_asked_answers(q0, told);
                        }
                        lemma_taken_out(asked, (cid, out is Ok));
                        assert(vector.chunks() =~= c0.difference(vector_store::taken_out(now)));
                        assert forall|i: int| 0 <= i < told.len() implies (
                        #[trigger] drained(q0, told.take(i))).len() > 0 by {
                            if i < before.len() {
                                assert(told.take(i) =~= before.take(i));
                            } else {
                                assert(told.take(i) =~= before);
                            }
                        }
                        assert forall|i: int| 0 <= i < told.len() implies old(vector).answers(
                            (#[trigger] now[i]).0,
                            now[i].1,
                        ) by {
                            if i < asked.len() {
                                assert(now[i] == asked[i]);
                            }
                        }
                    }
                    match out {
                        Ok(()) => {
                            report.deleted_ok = report.deleted_ok + 1;
                        },
                        Err(_) => {
                            self.queue.enqueue_delete(cid);
                            report.requeued = report.requeued + 1;
                        },
                    }
                },
            }
        }
        report
    }

    /// The delay before the next attempt: it doubles with each failure, up to the tenth, and
    /// never passes `cap_ms`.
    pub fn next_backoff_ms(fail_streak: u32, cap_ms: u64) -> (ms: u64)
        ensures
            ms == vstd::math::min(
                ladder(vstd::math::min(fail_streak as int, 10) as nat) as int,
                cap_ms as int,
            ),
    {
        let steps: u32 = if fail_streak < 10 {
            fail_streak
        } else {
            10
        };
        let mut ms: u64 = 250;
        let mut k: u32 = 0;
        while k < steps
            invariant
                k <= steps <= 10,
                ms == ladder(k as nat),
            decreases steps - k,
        {
            proof {
                lemma_ladder_bound(k as nat);
            }
            ms = 2 * ms;
            k = k + 1;
        }
        if ms < cap_ms {
            ms
        } else {
            cap_ms
        }
    }
}

/// There are as many deletes as answers, and they came to them.
proof fn lemma_asked_answers(q: Seq<[u8; 32]>, told: Seq<bool>)
    ensures
        asked_of(q, told).len() == told.len(),
        asked_of(q, told).map_values(|a: Asked| a.1) == told,
    decreases told.len(),
{
    if told.len() > 0 {
        lemma_asked_answers(q, told.drop_last());
        let front = asked_of(q, told.drop_last());
        assert(asked_of(q, told).map_values(|a: Asked| a.1) =~= front.map_values(
            |a: Asked| a.1,
        ).push(told.last()));
        assert(told =~= told.drop_last().push(told.last()));
    } else {
        assert(asked_of(q, told).map_values(|a: Asked| a.1) =~= told);
    }
}

/// One more delete takes out its chunk, if it was done.
proof fn lemma_taken_out(asked: Seq<Asked>, a: Asked)
    ensures
        vector_store::taken_out(asked.push(a)) == (if a.1 {
            vector_store::taken_out(asked).insert(a.0)
        } else {
            vector_store::taken_out(asked)
        }),
{
    let more = asked.push(a);
    assert forall|c: [u8; 32]| more.contains((c, true)) <==> asked.contains((c, true)) || (c, true)
        == a by {
        if asked.contains((c, true)) {
            let i = choose|i: int| 0 <= i < asked.len() && asked[i] == (c, true);
            assert(more[i] == (c, true));
        }
        if more.contains((c, true)) {
            let i = choose|i: int| 0 <= i < more.len() && more[i] == (c, true);
            if i < asked.len() {
                assert(asked[i] == (c, true));
            }
        }
        assert(more[asked.len() as int] == a);
    }
    assert(vector_store::taken_out(more) =~= (if a.1 {
        vector_store::taken_out(asked).insert(a.0)
    } else {
        vector_store::taken_out(asked)
    }));
}

/// The chunks that were deleted, in order.
pub open spec fn deleted_of(asked: Seq<Asked>) -> Seq<[u8; 32]>
    decreases asked.len(),
{
    if asked.len() == 0 {
        Seq::empty()
    } else if asked.last().1 {
        deleted_of(asked.drop_last()).push(asked.last().0)
    } else {
        deleted_of(asked.drop_last())
    }
}

/// No chunk that is owed is lost, whatever the store answers: what a pump does not delete stays in the
/// queue, as often as it was in it.
pub proof fn law_refused_chunks_stay(q: Seq<[u8; 32]>, told: Seq<bool>)
    requires
        within(q, told),
    ensures
        drained(q, told).to_multiset().add(deleted_of(asked_of(q, told)).to_multiset())
            == q.to_multiset(),
    decreases told.len(),
{
    if told.len() == 0 {
        let none = deleted_of(asked_of(q, told));
        none.to_multiset_ensures();
        assert(drained(q, told).to_multiset().add(none.to_multiset()) =~= q.to_multiset());
    } else {
        let before = told.drop_last();
        assert forall|i: int| 0 <= i < before.len() implies (
        #[trigger] drained(q, before.take(i))).len() > 0 by {
            assert(before.take(i) =~= told.take(i));
        }
        law_refused_chunks_stay(q, before);
        let front = drained(q, before);
        assert(told.take(told.len() - 1) =~= before);
        assert(front.len() > 0);
        let c = front[0];
        let rest = front.drop_first();
        let asked = asked_of(q, before);
        assert(asked_of(q, told).drop_last() =~= asked);
        let gone = deleted_of(asked);
        assert(front =~= seq![c] + rest);
        vstd::seq_lib::lemma_multiset_commutative(seq![c], rest);
        vstd::seq_lib::lemma_multiset_commutative(rest, seq![c]);
        rest.to_multiset_ensures();
        gone.to_multiset_ensures();
        let one = seq![c].to_multiset();
        assert(rest.push(c) =~= rest + seq![c]);
        assert(gone.push(c) =~= gone + seq![c]);
        vstd::seq_lib::lemma_multiset_commutative(gone, seq![c]);
        assert(front.to_multiset() =~= one.add(rest.to_multiset()));
        if told.last() {
            assert(drained(q, told).to_multiset().add(
                deleted_of(asked_of(q, told)).to_multiset(),
            ) =~= front.to_multiset().add(gone.to_multiset()));
        } else {
            assert(rest.push(c).to_multiset() =~= front.to_multiset());
        }
    }
}

/// Where every delete is done, the queue loses its head, a chunk for each.
pub proof fn law_willing_store_drains(q: Seq<[u8; 32]>, told: Seq<bool>)
    requires
        within(q, told),
        forall|i: int| 0 <= i < told.len() ==> #[trigger] told[i],
    ensures
        told.len() <= q.len(),
        drained(q, told) == q.skip(told.len() as int),
    decreases told.len(),
{
    if told.len() == 0 {
        assert(q.skip(0) =~= q);
    } else {
        let before = told.drop_last();
        assert forall|i: int| 0 <= i < before.len() implies (
        #[trigger] drained(q, before.take(i))).len() > 0 by {
            assert(before.take(i) =~= told.take(i));
        }
        assert forall|i: int| 0 <= i < before.len() implies #[trigger] before[i] by {
            assert(told[i]);
        }
        law_willing_store_drains(q, before);
        assert(told.take(told.len() - 1) =~= before);
        assert(told[told.len() - 1]);
        assert(drained(q, told) =~= q.skip(told.len() as int));
    }
}

/// Where every delete is refused, the queue goes round: it begins as many places on as there were
/// deletes, and what stood before is behind.
pub proof fn law_refusing_store_turns(q: Seq<[u8; 32]>, told: Seq<bool>)
    requires
        q.len() > 0,
        forall|i: int| 0 <= i < told.len() ==> !#[trigger] told[i],
    ensures
        drained(q, told) == Seq::new(q.len(), |i: int| q[(i + told.len()) % (q.len() as int)]),
    decreases told.len(),
{
    let len = q.len() as int;
    if told.len() == 0 {
        assert forall|i: int| 0 <= i < len implies #[trigger] q[(i + 0) % len] == q[i] by {
            vstd::arithmetic::div_mod::lemma_small_mod(i as nat, len as nat);
        }
        assert(drained(q, told) =~= Seq::new(q.len(), |i: int| q[(i + told.len()) % len]));
    } else {
        let before = told.drop_last();
        assert forall|i: int| 0 <= i < before.len() implies !#[trigger] before[i] by {
            assert(!told[i]);
        }
        law_refusing_store_turns(q, before);
        assert(!told[told.len() - 1]);
        let n = before.len() as int;
        let front = drained(q, before);
        let now = drained(q, told);
        assert forall|i: int| 0 <= i < len implies #[trigger] now[i] == q[(i + told.len()) % len] by {
            if i < len - 1 {
                assert(now[i] == front[i + 1]);
                assert(i + 1 + n == i + told.len());
            } else {
                assert(now[i] == front[0]);
                assert((n + len) % len == n % len) by {
                    vstd::arithmetic::div_mod::lemma_mod_add_multiples_vanish(n, len);
                }
                assert(i + told.len() == n + len);
            }
        }
        assert(now =~= Seq::new(q.len(), |i: int| q[(i + told.len()) % len]));
    }
}

} // verus!
