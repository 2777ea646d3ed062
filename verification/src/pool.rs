//! A model of the bounded worker pool: a fixed set of workers pulls
//! jobs from one shared FIFO queue, runs each job exactly once with
//! failures isolated to the job itself, and terminates only after the
//! queue has been closed and drained.
//!
//! The model keeps the pool's entire coordination state — the queue,
//! each worker's lifecycle phase and the acceptance flag — as plain
//! data, together with the full history of accepted and finished job
//! tickets.  Every decision the dispatcher makes (accept or reject a
//! submission, hand a job to a worker, let a worker terminate, survive
//! a failing job) is a verified transition here; the thread plumbing
//! that carries those decisions out lives outside the library.

use vstd::prelude::*;

verus! {

use vstd::multiset::Multiset;

broadcast use {vstd::seq_lib::group_to_multiset_ensures, vstd::multiset::group_multiset_axioms};

/// Why the pool refused a request.
#[derive(Debug, Clone, Copy, PartialEq, Eq, Structural)]
pub enum PoolError {
    /// A pool of zero workers could never run a job; construction
    /// rejects the configuration outright.
    ZeroWorkers,
    /// `submit` was called after shutdown had begun; the caller keeps
    /// the job, which is neither queued nor executed.
    SubmissionRejected,
}

/// The lifecycle phase of one worker.  `Terminated` is absorbing: no
/// transition of the pool ever takes a worker out of it.
#[derive(Debug, Clone, Copy, PartialEq, Eq, Structural)]
pub enum Phase {
    /// Blocked on the queue, ready to pick up the next job.
    Waiting,
    /// Running the job with this ticket.
    Executing { job: u64 },
    /// Observed the queue closed and drained, and exited its loop.
    Terminated,
}

/// What a waiting worker receives when it asks the queue for work.
#[derive(Debug, Clone, Copy, PartialEq, Eq, Structural)]
pub enum Fetch {
    /// A job to run, identified by its ticket.
    Handed(u64),
    /// The queue is open but empty; the worker stays blocked and asks
    /// again later.
    Pending,
    /// The queue is closed and drained; the worker terminates.
    Closed,
}

/// The tickets of the jobs currently being executed, one per worker
/// whose phase is `Executing`.
pub open spec fn in_flight(workers: Seq<Phase>) -> Multiset<u64>
    decreases workers.len(),
{
    if workers.len() == 0 {
        Multiset::empty()
    } else {
        let rest = in_flight(workers.drop_last());
        if workers.last() is Executing {
            rest.insert(workers.last()->job)
        } else {
            rest
        }
    }
}

/// The ticket a single worker is busy with, as a sequence: empty when
/// it is not executing.
pub open spec fn busy_seq(w: Phase) -> Seq<u64> {
    match w {
        Phase::Executing { job } => seq![job],
        _ => Seq::empty(),
    }
}

proof fn lemma_in_flight_swap_in(ws: Seq<Phase>, i: int, job: u64)
    requires
        0 <= i < ws.len(),
        !(ws[i] is Executing),
    ensures
        in_flight(ws.update(i, Phase::Executing { job })) == in_flight(ws).insert(job),
    decreases ws.len(),
{
    let ws2 = ws.update(i, Phase::Executing { job });
    if i == ws.len() - 1 {
        assert(ws2.drop_last() =~= ws.drop_last());
    } else {
        assert(ws2.drop_last() =~= ws.drop_last().update(i, Phase::Executing { job }));
        lemma_in_flight_swap_in(ws.drop_last(), i, job);
        assert(in_flight(ws2) =~= in_flight(ws).insert(job));
    }
}

proof fn lemma_in_flight_swap_out(ws: Seq<Phase>, i: int, p: Phase)
    requires
        0 <= i < ws.len(),
        ws[i] is Executing,
        !(p is Executing),
    ensures
        in_flight(ws) == in_flight(ws.update(i, p)).insert(ws[i]->job),
    decreases ws.len(),
{
    let ws2 = ws.update(i, p);
    if i == ws.len() - 1 {
        assert(ws2.drop_last() =~= ws.drop_last());
    } else {
        assert(ws2.drop_last() =~= ws.drop_last().update(i, p));
        lemma_in_flight_swap_out(ws.drop_last(), i, p);
        assert(in_flight(ws) =~= in_flight(ws2).insert(ws[i]->job));
    }
}

proof fn lemma_in_flight_unchanged(ws: Seq<Phase>, i: int, p: Phase)
    requires
        0 <= i < ws.len(),
        !(ws[i] is Executing),
        !(p is Executing),
    ensures
        in_flight(ws.update(i, p)) == in_flight(ws),
    decreases ws.len(),
{
    let ws2 = ws.update(i, p);
    if i == ws.len() - 1 {
        assert(ws2.drop_last() =~= ws.drop_last());
    } else {
        assert(ws2.drop_last() =~= ws.drop_last().update(i, p));
        lemma_in_flight_unchanged(ws.drop_last(), i, p);
    }
}

proof fn lemma_in_flight_all_idle(ws: Seq<Phase>)
    requires
        forall|i: int| 0 <= i < ws.len() ==> !(ws[i] is Executing),
    ensures
        in_flight(ws) == Multiset::<u64>::empty(),
    decreases ws.len(),
{
    if ws.len() > 0 {
        lemma_in_flight_all_idle(ws.drop_last());
    }
}

/// At most one in-flight job per worker.
pub proof fn lemma_in_flight_bounded(ws: Seq<Phase>)
    ensures
        in_flight(ws).len() <= ws.len(),
    decreases ws.len(),
{
    if ws.len() > 0 {
        lemma_in_flight_bounded(ws.drop_last());
    }
}

/// The coordination state of the pool.  One value of this type stands
/// for the whole dispatcher: the shared queue, the fixed worker set and
/// the producer-side acceptance flag, together with the history needed
/// to state the delivery guarantees.
pub struct Pool {
    /// One entry per worker, in pool-assigned id order.
    pub workers: Vec<Phase>,
    /// Tickets accepted but not yet handed to a worker, oldest first.
    pub queue: Vec<u64>,
    /// Whether the producer side of the queue is still open.
    pub accepting: bool,
    /// Every ticket ever accepted by `submit`, in acceptance order.
    pub accepted: Vec<u64>,
    /// Every ticket whose execution has finished, in completion order.
    pub executed: Vec<u64>,
    /// The finished tickets whose job raised a failure.
    pub failed: Vec<u64>,
}

impl Pool {
    /// The pool's invariant: every accepted job is in exactly one
    /// place — already finished, in a worker's hands, or still queued —
    /// a single worker preserves acceptance order, and a terminated
    /// worker exists only once the queue is closed and drained.
    pub open spec fn wf(self) -> bool {
        &&& self.accepted@.to_multiset() == self.executed@.to_multiset().add(
            in_flight(self.workers@),
        ).add(self.queue@.to_multiset())
        &&& self.workers@.len() == 1 ==> self.accepted@ == self.executed@ + busy_seq(
            self.workers@[0],
        ) + self.queue@
        &&& (exists|i: int| 0 <= i < self.workers@.len() && self.workers@[i] is Terminated)
            ==> (!self.accepting && self.queue@.len() == 0)
        &&& forall|i: int|
            0 <= i < self.failed@.len() ==> self.executed@.contains(#[trigger] self.failed@[i])
    }

    /// All workers have reached their absorbing `Terminated` phase;
    /// this is what the pool waits for before `shutdown` returns.
    pub open spec fn spec_all_stopped(self) -> bool {
        forall|i: int| 0 <= i < self.workers@.len() ==> self.workers@[i] is Terminated
    }

    /// Builds a pool of `size` workers, all immediately waiting on a
    /// fresh, open, empty queue.  A size of zero is a configuration
    /// error and is rejected.
    pub fn new(size: usize) -> (r: Result<Pool, PoolError>)
        ensures
            size == 0 <==> r == Result::<Pool, PoolError>::Err(PoolError::ZeroWorkers),
            size > 0 ==> (r matches Ok(p) && {
                &&& p.wf()
                &&& p.workers@.len() == size
                &&& forall|i: int| 0 <= i < size ==> p.workers@[i] is Waiting
                &&& p.accepting
                &&& p.queue@.len() == 0
                &&& p.accepted@.len() == 0
                &&& p.executed@.len() == 0
                &&& p.failed@.len() == 0
            }),
    {
        if size == 0 {
            return Err(PoolError::ZeroWorkers);
        }

        let mut workers: Vec<Phase> = Vec::new();
        let mut i: usize = 0;
        while i < size
            invariant
                i <= size,
                workers@.len() == i,
                forall|k: int| 0 <= k < i ==> workers@[k] is Waiting,
            decreases size - i,
        {
            workers.push(Phase::Waiting);
            i += 1;
        }

        let p = Pool {
            workers,
            queue: Vec::new(),
            accepting: true,
            accepted: Vec::new(),
            executed: Vec::new(),
            failed: Vec::new(),
        };

        proof {
            lemma_in_flight_all_idle(p.workers@);
            assert(p.accepted@.to_multiset() =~= p.executed@.to_multiset().add(
                in_flight(p.workers@),
            ).add(p.queue@.to_multiset()));
            if p.workers@.len() == 1 {
                assert(p.accepted@ =~= p.executed@ + busy_seq(p.workers@[0]) + p.queue@);
            }
        }

        Ok(p)
    }

    /// Accepts a job while the pool is open: the ticket goes to the
    /// back of the shared queue and is from then on guaranteed to be
    /// delivered to exactly one worker.  Once shutdown has begun the
    /// submission is rejected and the pool is left exactly as it was:
    /// the rejected ticket is neither queued nor ever executed.
    pub fn submit(&mut self, job: u64) -> (r: Result<(), PoolError>)
        requires
            old(self).wf(),
        ensures
            final(self).wf(),
            old(self).accepting ==> {
                &&& r == Result::<(), PoolError>::Ok(())
                &&& final(self).queue@ == old(self).queue@.push(job)
                &&& final(self).accepted@ == old(self).accepted@.push(job)
                &&& final(self).workers@ == old(self).workers@
                &&& final(self).executed@ == old(self).executed@
                &&& final(self).failed@ == old(self).failed@
                &&& final(self).accepting
            },
            !old(self).accepting ==> {
                &&& r == Result::<(), PoolError>::Err(PoolError::SubmissionRejected)
                &&& *final(self) == *old(self)
            },
    {
        if !self.accepting {
            return Err(PoolError::SubmissionRejected);
        }

        self.queue.push(job);
        self.accepted.push(job);

        proof {
            assert(self.accepted@.to_multiset() =~= self.executed@.to_multiset().add(
                in_flight(self.workers@),
            ).add(self.queue@.to_multiset()));
            if self.workers@.len() == 1 {
                assert(self.accepted@ =~= self.executed@ + busy_seq(self.workers@[0])
                    + self.queue@);
            }
        }

        Ok(())
    }

    /// Closes the producer side of the queue: no further job will be
    /// accepted, while everything already accepted stays deliverable.
    /// Calling it again changes nothing.
    pub fn begin_shutdown(&mut self)
        requires
            old(self).wf(),
        ensures
            final(self).wf(),
            !final(self).accepting,
            final(self).workers@ == old(self).workers@,
            final(self).queue@ == old(self).queue@,
            final(self).accepted@ == old(self).accepted@,
            final(self).executed@ == old(self).executed@,
            final(self).failed@ == old(self).failed@,
    {
        self.accepting = false;
    }

    /// A waiting worker asks the queue for work.  With jobs pending it
    /// is handed exactly the oldest one; with an open empty queue it
    /// keeps waiting; with the queue closed and drained it terminates —
    /// the only way a worker ever terminates.  No other worker is
    /// touched, and a terminated worker stays terminated.
    pub fn fetch(&mut self, w: usize) -> (r: Fetch)
        requires
            old(self).wf(),
            w < old(self).workers@.len(),
            old(self).workers@[w as int] is Waiting,
        ensures
            final(self).wf(),
            final(self).workers@.len() == old(self).workers@.len(),
            final(self).accepting == old(self).accepting,
            final(self).accepted@ == old(self).accepted@,
            final(self).executed@ == old(self).executed@,
            final(self).failed@ == old(self).failed@,
            forall|i: int|
                0 <= i < old(self).workers@.len() && i != w ==> final(self).workers@[i] == old(
                    self,
                ).workers@[i],
            forall|i: int|
                0 <= i < old(self).workers@.len() && old(self).workers@[i] is Terminated
                    ==> final(self).workers@[i] is Terminated,
            old(self).queue@.len() > 0 ==> {
                &&& r == Fetch::Handed(old(self).queue@[0])
                &&& final(self).queue@ == old(self).queue@.drop_first()
                &&& final(self).workers@[w as int] == (Phase::Executing {
                    job: old(self).queue@[0],
                })
            },
            old(self).queue@.len() == 0 && old(self).accepting ==> {
                &&& r == Fetch::Pending
                &&& *final(self) == *old(self)
            },
            old(self).queue@.len() == 0 && !old(self).accepting ==> {
                &&& r == Fetch::Closed
                &&& final(self).queue@ == old(self).queue@
                &&& final(self).workers@[w as int] is Terminated
            },
    {
        if self.queue.len() > 0 {
            let job = self.queue.remove(0);
            let ghost ws = self.workers@;
            self.workers.set(w, Phase::Executing { job });

            proof {
                lemma_in_flight_swap_in(ws, w as int, job);
                assert(old(self).queue@.to_multiset().remove(job) =~= self.queue@.to_multiset());
                assert(self.accepted@.to_multiset() =~= self.executed@.to_multiset().add(
                    in_flight(self.workers@),
                ).add(self.queue@.to_multiset()));
                if self.workers@.len() == 1 {
                    assert(self.accepted@ =~= self.executed@ + busy_seq(self.workers@[0])
                        + self.queue@);
                }
            }

            Fetch::Handed(job)
        } else if self.accepting {
            Fetch::Pending
        } else {
            let ghost ws = self.workers@;
            self.workers.set(w, Phase::Terminated);

            proof {
                lemma_in_flight_unchanged(ws, w as int, Phase::Terminated);
                if self.workers@.len() == 1 {
                    assert(self.accepted@ =~= self.executed@ + busy_seq(self.workers@[0])
                        + self.queue@);
                }
            }

            Fetch::Closed
        }
    }

    /// The worker's job has finished, successfully or by raising a
    /// failure.  Either way the ticket is recorded as executed and the
    /// worker goes straight back to waiting: a failing job is recorded
    /// and then forgotten — it is never retried, never re-enqueued, and
    /// it never terminates its worker or touches any other worker.
    pub fn finish(&mut self, w: usize, failed: bool)
        requires
            old(self).wf(),
            w < old(self).workers@.len(),
            old(self).workers@[w as int] is Executing,
        ensures
            final(self).wf(),
            final(self).workers@.len() == old(self).workers@.len(),
            final(self).workers@[w as int] is Waiting,
            final(self).executed@ == old(self).executed@.push(old(self).workers@[w as int]->job),
            final(self).failed@ == if failed {
                old(self).failed@.push(old(self).workers@[w as int]->job)
            } else {
                old(self).failed@
            },
            final(self).accepting == old(self).accepting,
            final(self).queue@ == old(self).queue@,
            final(self).accepted@ == old(self).accepted@,
            forall|i: int|
                0 <= i < old(self).workers@.len() && i != w ==> final(self).workers@[i] == old(
                    self,
                ).workers@[i],
            forall|i: int|
                0 <= i < old(self).workers@.len() && old(self).workers@[i] is Terminated
                    ==> final(self).workers@[i] is Terminated,
    {
        let ph = self.workers[w];
        match ph {
            Phase::Executing { job } => {
                self.executed.push(job);
                if failed {
                    self.failed.push(job);
                }
                let ghost ws = self.workers@;
                self.workers.set(w, Phase::Waiting);

                proof {
                    assert forall|i: int| 0 <= i < self.failed@.len() implies self.executed@
                        .contains(#[trigger] self.failed@[i]) by {
                        if i < old(self).failed@.len() {
                            let x = old(self).failed@[i];
                            let k = choose|k: int|
                                0 <= k < old(self).executed@.len() && old(self).executed@[k] == x;
                            assert(self.executed@[k] == x);
                        } else {
                            assert(self.executed@[old(self).executed@.len() as int] == job);
                        }
                    }
                    lemma_in_flight_swap_out(ws, w as int, Phase::Waiting);
                    assert(self.accepted@.to_multiset() =~= self.executed@.to_multiset().add(
                        in_flight(self.workers@),
                    ).add(self.queue@.to_multiset()));
                    if self.workers@.len() == 1 {
                        assert(self.accepted@ =~= self.executed@ + busy_seq(self.workers@[0])
                            + self.queue@);
                    }
                }
            },
            _ => {},
        }
    }

    /// Whether every worker has terminated, which is what `shutdown`
    /// waits for.
    pub fn all_stopped(&self) -> (r: bool)
        ensures
            r == self.spec_all_stopped(),
    {
        let mut i: usize = 0;
        while i < self.workers.len()
            invariant
                i <= self.workers@.len(),
                forall|k: int| 0 <= k < i ==> self.workers@[k] is Terminated,
            decreases self.workers@.len() - i,
        {
            match self.workers[i] {
                Phase::Terminated => {},
                _ => {
                    return false;
                },
            }
            i += 1;
        }
        true
    }
}

/// Shutdown drains the pool completely.  Once every worker has
/// terminated — the condition under which `shutdown` returns — the
/// queue is closed and empty, nothing is in flight, and the finished
/// jobs are exactly the accepted jobs: none was lost and none ran
/// twice, whatever the interleaving of submissions and workers that
/// led here.  No worker remains runnable: `Terminated` is absorbing
/// and no pool transition applies to a terminated worker.
pub proof fn lemma_shutdown_drains_all(p: Pool)
    requires
        p.wf(),
        p.spec_all_stopped(),
        p.workers@.len() > 0,
    ensures
        !p.accepting,
        p.queue@.len() == 0,
        in_flight(p.workers@) == Multiset::<u64>::empty(),
        p.executed@.to_multiset() == p.accepted@.to_multiset(),
        p.executed@.len() == p.accepted@.len(),
{
    assert(p.workers@[0] is Terminated);
    lemma_in_flight_all_idle(p.workers@);
    assert(p.queue@.to_multiset() =~= Multiset::<u64>::empty());
    assert(p.executed@.to_multiset() =~= p.accepted@.to_multiset());
    p.executed@.to_multiset_ensures();
    p.accepted@.to_multiset_ensures();
}

/// No more jobs run at once than there are workers: each worker
/// executes at most one job, so the in-flight jobs never outnumber the
/// pool's fixed size.
pub proof fn lemma_parallelism_bound(p: Pool)
    ensures
        in_flight(p.workers@).len() <= p.workers@.len(),
{
    lemma_in_flight_bounded(p.workers@);
}

/// A job the pool never accepted is never executed; in particular a
/// submission rejected after shutdown began leaves no trace in the
/// execution history.
pub proof fn lemma_unaccepted_never_runs(p: Pool, job: u64)
    requires
        p.wf(),
        !p.accepted@.contains(job),
    ensures
        !p.executed@.contains(job),
{
    p.accepted@.to_multiset_ensures();
    p.executed@.to_multiset_ensures();
    assert(p.accepted@.to_multiset().count(job) == 0);
}

/// With a single worker the pool is strictly FIFO: the finished
/// tickets are, in order, a prefix of the accepted tickets, so two
/// jobs submitted in order are never finished in the opposite order.
/// (With more than one worker no such ordering holds, and none is
/// claimed.)
pub proof fn lemma_single_worker_fifo(p: Pool)
    requires
        p.wf(),
        p.workers@.len() == 1,
    ensures
        p.executed@ == p.accepted@.take(p.executed@.len() as int),
{
    assert(p.executed@ =~= p.accepted@.take(p.executed@.len() as int));
}

} // verus!
