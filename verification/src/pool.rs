//! Model of the worker pool's lifecycle: a fixed set of workers draining a
//! shared first-in-first-out queue, with a shutdown protocol that closes
//! the intake, drains every job, retires every worker and joins each in
//! order of identity.
//!
//! Jobs are identified by submission order: the `n`-th successful
//! `execute` call submits job `n`. The well-formedness invariant `wf`
//! accounts for every accepted job exactly once — still queued, held by
//! exactly one worker, or executed — which is what makes delivery
//! exactly-once.

use vstd::multiset::Multiset;
use vstd::prelude::*;

use crate::queue::JobQueue;
use crate::queue::RecvOutcome;

verus! {

/// One worker's place in its lifecycle: waiting for work, running one job,
/// or terminated after observing the closed queue.
#[derive(PartialEq, Eq, Structural, Debug, Clone, Copy)]
pub enum WorkerState {
    Idle,
    Running(u64),
    Done,
}

/// What a worker's loop does with what it received from the queue.
#[derive(PartialEq, Eq, Structural, Debug, Clone, Copy)]
pub enum WorkerAction {
    Run(u64),
    Stop,
}

/// The pool's lifecycle phase: accepting jobs, draining after the intake
/// closed, or fully joined.
#[derive(PartialEq, Eq, Structural, Debug, Clone, Copy)]
pub enum PoolPhase {
    Open,
    Closing,
    Closed,
}

/// Submitting to a pool whose intake has been closed is a usage error; the
/// job is refused loudly, never silently dropped.
#[derive(PartialEq, Eq, Structural, Debug, Clone, Copy)]
pub enum PoolError {
    ShutDown,
}

/// The jobs of a sequence, as a multiset.
pub open spec fn seq_multiset(s: Seq<u64>) -> Multiset<u64>
    decreases s.len(),
{
    if s.len() == 0 {
        Multiset::empty()
    } else {
        seq_multiset(s.drop_last()).insert(s.last())
    }
}

/// The job a single worker currently holds, as a multiset.
pub open spec fn worker_jobs(w: WorkerState) -> Multiset<u64> {
    match w {
        WorkerState::Running(j) => Multiset::singleton(j),
        _ => Multiset::empty(),
    }
}

/// All jobs currently held by workers.
pub open spec fn running_jobs(ws: Seq<WorkerState>) -> Multiset<u64>
    decreases ws.len(),
{
    if ws.len() == 0 {
        Multiset::empty()
    } else {
        running_jobs(ws.drop_last()).add(worker_jobs(ws.last()))
    }
}

/// The job identifiers `lo <= j < hi`, each exactly once.
pub open spec fn id_interval(lo: int, hi: int) -> Multiset<u64>
    decreases hi - lo,
{
    if lo >= hi {
        Multiset::empty()
    } else {
        id_interval(lo, hi - 1).insert((hi - 1) as u64)
    }
}

proof fn lemma_seq_multiset_push(s: Seq<u64>, x: u64)
    ensures
        seq_multiset(s.push(x)) =~= seq_multiset(s).insert(x),
{
    assert(s.push(x).drop_last() =~= s);
    assert(s.push(x).last() == x);
}

proof fn lemma_seq_multiset_len(s: Seq<u64>)
    ensures
        seq_multiset(s).len() == s.len(),
    decreases s.len(),
{
    if s.len() > 0 {
        lemma_seq_multiset_len(s.drop_last());
    }
}

proof fn lemma_id_interval_len(lo: int, hi: int)
    requires
        lo <= hi,
    ensures
        id_interval(lo, hi).len() == hi - lo,
    decreases hi - lo,
{
    if lo < hi {
        lemma_id_interval_len(lo, hi - 1);
    }
}

proof fn lemma_id_interval_count(lo: int, hi: int, j: u64)
    requires
        0 <= lo,
        hi <= u64::MAX + 1,
    ensures
        id_interval(lo, hi).count(j) == if lo <= j < hi {
            1int
        } else {
            0int
        },
    decreases hi - lo,
{
    if lo < hi {
        lemma_id_interval_count(lo, hi - 1, j);
    }
}

proof fn lemma_running_jobs_update(ws: Seq<WorkerState>, w: int, x: WorkerState)
    requires
        0 <= w < ws.len(),
    ensures
        running_jobs(ws.update(w, x)).add(worker_jobs(ws[w])) =~= running_jobs(ws).add(
            worker_jobs(x),
        ),
    decreases ws.len(),
{
    let n = ws.len() as int;
    let u = ws.update(w, x);
    assert(u.len() == n);
    if w == n - 1 {
        assert(u.drop_last() =~= ws.drop_last());
        assert(u.last() == x);
        assert(running_jobs(u) == running_jobs(ws.drop_last()).add(worker_jobs(x)));
        assert(running_jobs(ws) == running_jobs(ws.drop_last()).add(worker_jobs(ws.last())));
        assert(ws[w] == ws.last());
    } else {
        assert(u.drop_last() =~= ws.drop_last().update(w, x));
        assert(u.last() == ws.last());
        lemma_running_jobs_update(ws.drop_last(), w, x);
        assert(running_jobs(u) == running_jobs(ws.drop_last().update(w, x)).add(
            worker_jobs(ws.last()),
        ));
        assert(running_jobs(ws) == running_jobs(ws.drop_last()).add(worker_jobs(ws.last())));
        assert(ws.drop_last()[w] == ws[w]);
    }
}

proof fn lemma_running_jobs_none(ws: Seq<WorkerState>)
    requires
        forall|i: int| 0 <= i < ws.len() ==> !(ws[i] is Running),
    ensures
        running_jobs(ws) =~= Multiset::empty(),
    decreases ws.len(),
{
    if ws.len() > 0 {
        assert(forall|i: int|
            0 <= i < ws.drop_last().len() ==> !(#[trigger] ws.drop_last()[i] is Running));
        lemma_running_jobs_none(ws.drop_last());
    }
}

/// The pool: a fixed set of workers, the dispatch queue, the log of
/// completed jobs in completion order, how many workers have been joined,
/// and the identifier the next accepted job will get.
pub struct ThreadPool {
    pub queue: JobQueue,
    pub workers: Vec<WorkerState>,
    pub executed: Vec<u64>,
    pub joined: usize,
    pub next_job: u64,
}

impl ThreadPool {
    /// The identifier of the oldest job still queued; every identifier
    /// below it has been handed to a worker.
    pub open spec fn queue_lo(self) -> int {
        self.next_job - self.queue.pending@.len()
    }

    /// With a single worker, jobs complete in submission order: the log is
    /// exactly `0, 1, 2, ...` and the worker only ever runs the next one.
    pub open spec fn single_serial(self) -> bool {
        self.workers@.len() == 1 ==> {
            &&& forall|i: int| 0 <= i < self.executed@.len() ==> self.executed@[i] == i
            &&& (self.workers@[0] matches WorkerState::Running(j) ==> j == self.executed@.len()
                && self.queue_lo() == self.executed@.len() + 1)
            &&& (!(self.workers@[0] is Running) ==> self.queue_lo() == self.executed@.len())
        }
    }

    /// Well-formedness: the protocol's invariant.
    ///
    /// - the pool has at least one worker, and joined workers form a
    ///   prefix of terminated ones;
    /// - workers terminate, and jobs stop being queued, only once the
    ///   intake is closed;
    /// - the queue holds exactly the identifiers `queue_lo() <= j <
    ///   next_job`, oldest first;
    /// - every identifier below `queue_lo()` is accounted for exactly
    ///   once: completed, or held by exactly one worker.
    pub open spec fn wf(self) -> bool {
        &&& self.workers@.len() > 0
        &&& self.joined <= self.workers@.len()
        &&& forall|i: int| 0 <= i < self.joined ==> self.workers@[i] is Done
        &&& forall|i: int|
            0 <= i < self.workers@.len() ==> (#[trigger] self.workers@[i] is Done
                ==> self.queue.closed)
        &&& forall|i: int|
            0 <= i < self.workers@.len() ==> (#[trigger] self.workers@[i] is Done
                ==> self.queue.pending@.len() == 0)
        &&& 0 <= self.queue_lo()
        &&& forall|i: int|
            0 <= i < self.queue.pending@.len() ==> #[trigger] self.queue.pending@[i]
                == self.queue_lo() + i
        &&& seq_multiset(self.executed@).add(running_jobs(self.workers@)) =~= id_interval(
            0,
            self.queue_lo(),
        )
        &&& self.single_serial()
    }

    /// The pool's phase: open until the intake closes, closing until every
    /// worker is joined.
    pub open spec fn spec_phase(self) -> PoolPhase {
        if !self.queue.closed {
            PoolPhase::Open
        } else if self.joined < self.workers@.len() {
            PoolPhase::Closing
        } else {
            PoolPhase::Closed
        }
    }

    /// Construct a pool of `size` workers, all immediately waiting on a
    /// fresh open queue. A pool of zero workers would accept jobs it could
    /// never run, so `size` must be positive.
    pub fn new(size: usize) -> (p: ThreadPool)
        requires
            size > 0,
        ensures
            p.wf(),
            p.workers@.len() == size,
            forall|i: int| 0 <= i < size ==> p.workers@[i] is Idle,
            p.spec_phase() is Open,
            p.next_job == 0,
            p.executed@.len() == 0,
            p.queue.pending@.len() == 0,
            p.joined == 0,
    {
        let mut workers: Vec<WorkerState> = Vec::new();
        let mut i: usize = 0;
        while i < size
            invariant
                i <= size,
                workers@.len() == i,
                forall|k: int| 0 <= k < i ==> workers@[k] is Idle,
            decreases size - i,
        {
            workers.push(WorkerState::Idle);
            i += 1;
        }
        let p = ThreadPool {
            queue: JobQueue::new(),
            workers,
            executed: Vec::new(),
            joined: 0,
            next_job: 0,
        };
        proof {
            lemma_running_jobs_none(p.workers@);
            assert(p.executed@.len() == 0);
            assert(seq_multiset(p.executed@).add(running_jobs(p.workers@)) =~= id_interval(0, 0));
        }
        p
    }

    /// Submit a job. While the pool is open the job is accepted, assigned
    /// the next identifier and enqueued; after shutdown has begun the call
    /// fails and the pool is unchanged.
    pub fn execute(&mut self) -> (r: Result<u64, PoolError>)
        requires
            old(self).wf(),
            old(self).next_job < u64::MAX,
        ensures
            final(self).wf(),
            r is Ok <==> old(self).spec_phase() is Open,
            old(self).spec_phase() is Open ==> {
                &&& r == Ok::<u64, PoolError>(old(self).next_job)
                &&& final(self).next_job == old(self).next_job + 1
                &&& final(self).queue.pending@ =~= old(self).queue.pending@.push(
                    old(self).next_job,
                )
                &&& final(self).queue.closed == old(self).queue.closed
                &&& final(self).workers == old(self).workers
                &&& final(self).executed == old(self).executed
                &&& final(self).joined == old(self).joined
            },
            !(old(self).spec_phase() is Open) ==> r == Err::<u64, PoolError>(PoolError::ShutDown)
                && *final(self) == *old(self),
    {
        let id = self.next_job;
        match self.queue.send(id) {
            Ok(()) => {
                self.next_job = id + 1;
                Ok(id)
            },
            Err(()) => Err(PoolError::ShutDown),
        }
    }

    /// An idle worker pulls the oldest queued job and starts running it:
    /// the job leaves the queue and is now held by exactly that worker.
    pub fn deliver(&mut self, w: usize) -> (job: u64)
        requires
            old(self).wf(),
            w < old(self).workers@.len(),
            old(self).workers@[w as int] is Idle,
            old(self).queue.pending@.len() > 0,
        ensures
            final(self).wf(),
            job == old(self).queue_lo(),
            final(self).workers@ =~= old(self).workers@.update(
                w as int,
                WorkerState::Running(job),
            ),
            final(self).queue.pending@ =~= old(self).queue.pending@.drop_first(),
            final(self).queue.closed == old(self).queue.closed,
            final(self).executed == old(self).executed,
            final(self).joined == old(self).joined,
            final(self).next_job == old(self).next_job,
    {
        let ghost prev = *self;
        match self.queue.recv() {
            RecvOutcome::Job(job) => {
                self.workers.set(w, WorkerState::Running(job));
                proof {
                    lemma_running_jobs_update(
                        prev.workers@,
                        w as int,
                        WorkerState::Running(job),
                    );
                    assert(worker_jobs(prev.workers@[w as int]) =~= Multiset::empty());
                    assert(running_jobs(self.workers@) =~= running_jobs(prev.workers@).insert(
                        job,
                    ));
                    assert(job == prev.queue_lo());
                    assert(self.queue_lo() == prev.queue_lo() + 1);
                    assert(id_interval(0, self.queue_lo()) == id_interval(
                        0,
                        prev.queue_lo(),
                    ).insert(prev.queue_lo() as u64));
                    assert(seq_multiset(self.executed@).add(running_jobs(self.workers@))
                        =~= id_interval(0, self.queue_lo()));
                }
                job
            },
            RecvOutcome::Disconnected => {
                proof {
                    assert(false);
                }
                vstd::pervasive::unreached()
            },
        }
    }

    /// The worker holding a running job finishes it: the job is appended
    /// to the completion log and the worker goes back to waiting.
    pub fn complete(&mut self, w: usize) -> (job: u64)
        requires
            old(self).wf(),
            w < old(self).workers@.len(),
            old(self).workers@[w as int] is Running,
        ensures
            final(self).wf(),
            old(self).workers@[w as int] == WorkerState::Running(job),
            final(self).workers@ =~= old(self).workers@.update(w as int, WorkerState::Idle),
            final(self).executed@ =~= old(self).executed@.push(job),
            final(self).queue == old(self).queue,
            final(self).joined == old(self).joined,
            final(self).next_job == old(self).next_job,
    {
        let ghost prev = *self;
        match self.workers[w] {
            WorkerState::Running(job) => {
                self.workers.set(w, WorkerState::Idle);
                self.executed.push(job);
                proof {
                    lemma_running_jobs_update(prev.workers@, w as int, WorkerState::Idle);
                    lemma_seq_multiset_push(prev.executed@, job);
                    assert(running_jobs(self.workers@).insert(job) =~= running_jobs(
                        prev.workers@,
                    ));
                    assert(seq_multiset(self.executed@).add(running_jobs(self.workers@))
                        =~= seq_multiset(prev.executed@).add(running_jobs(prev.workers@)));
                }
                job
            },
            _ => {
                proof {
                    assert(false);
                }
                vstd::pervasive::unreached()
            },
        }
    }

    /// An idle worker observes the closed, drained queue and terminates
    /// its loop.
    pub fn retire(&mut self, w: usize)
        requires
            old(self).wf(),
            w < old(self).workers@.len(),
            old(self).workers@[w as int] is Idle,
            old(self).queue.closed,
            old(self).queue.pending@.len() == 0,
        ensures
            final(self).wf(),
            final(self).workers@ =~= old(self).workers@.update(w as int, WorkerState::Done),
            final(self).queue == old(self).queue,
            final(self).executed == old(self).executed,
            final(self).joined == old(self).joined,
            final(self).next_job == old(self).next_job,
    {
        let ghost prev = *self;
        match self.queue.recv() {
            RecvOutcome::Disconnected => {
                self.workers.set(w, WorkerState::Done);
                proof {
                    lemma_running_jobs_update(prev.workers@, w as int, WorkerState::Done);
                    assert(worker_jobs(prev.workers@[w as int]) =~= Multiset::<u64>::empty());
                    assert(worker_jobs(WorkerState::Done) =~= Multiset::<u64>::empty());
                    assert forall|v: u64|
                        running_jobs(self.workers@).count(v) == running_jobs(
                            prev.workers@,
                        ).count(v) by {
                        assert(running_jobs(self.workers@).add(
                            worker_jobs(prev.workers@[w as int]),
                        ).count(v) == running_jobs(prev.workers@).add(
                            worker_jobs(WorkerState::Done),
                        ).count(v));
                    }
                    assert(running_jobs(self.workers@) =~= running_jobs(prev.workers@));
                }
            },
            RecvOutcome::Job(_) => {
                proof {
                    assert(false);
                }
                vstd::pervasive::unreached()
            },
        }
    }

    /// Close the intake: no further job is accepted, and every waiting
    /// worker will, once the queue drains, observe the disconnection.
    /// This is the first step of teardown and is irreversible.
    pub fn close_intake(&mut self)
        requires
            old(self).wf(),
        ensures
            final(self).wf(),
            final(self).queue.closed,
            !(final(self).spec_phase() is Open),
            final(self).queue.pending@ =~= old(self).queue.pending@,
            final(self).workers == old(self).workers,
            final(self).executed == old(self).executed,
            final(self).joined == old(self).joined,
            final(self).next_job == old(self).next_job,
    {
        self.queue.close();
    }

    /// Join the next worker, in order of identity. Joining blocks until
    /// the worker has terminated, so this step is taken once that worker
    /// is done.
    pub fn join_next(&mut self)
        requires
            old(self).wf(),
            old(self).joined < old(self).workers@.len(),
            old(self).workers@[old(self).joined as int] is Done,
        ensures
            final(self).wf(),
            final(self).joined == old(self).joined + 1,
            final(self).workers == old(self).workers,
            final(self).queue == old(self).queue,
            final(self).executed == old(self).executed,
            final(self).next_job == old(self).next_job,
    {
        let n = self.workers.len();
        assert(self.joined < n);
        self.joined = self.joined + 1;
    }

    /// The pool's current phase.
    pub fn phase(&self) -> (p: PoolPhase)
        ensures
            p == self.spec_phase(),
    {
        if !self.queue.closed {
            PoolPhase::Open
        } else if self.joined < self.workers.len() {
            PoolPhase::Closing
        } else {
            PoolPhase::Closed
        }
    }

    /// How many workers the pool was built with.
    pub fn size(&self) -> (n: usize)
        ensures
            n == self.workers@.len(),
    {
        self.workers.len()
    }

    /// Tear the pool down: close the intake, let the workers drain every
    /// queued job, let each observe the disconnection, and join each in
    /// order of identity. Every loop carries a `decreases` measure, so
    /// teardown provably terminates; when it returns the pool is closed,
    /// the queue is empty, and the completion log holds every accepted
    /// job exactly once.
    pub fn shutdown(&mut self)
        requires
            old(self).wf(),
        ensures
            final(self).wf(),
            final(self).spec_phase() is Closed,
            final(self).next_job == old(self).next_job,
            final(self).workers@.len() == old(self).workers@.len(),
            final(self).joined == final(self).workers@.len(),
            final(self).queue.pending@.len() == 0,
            seq_multiset(final(self).executed@) =~= id_interval(0, old(self).next_job as int),
            final(self).executed@.len() == old(self).next_job,
    {
        self.close_intake();
        let n = self.workers.len();
        // Let every worker finish the job it is holding.
        let mut w: usize = 0;
        while w < n
            invariant
                self.wf(),
                n == self.workers@.len(),
                w <= n,
                self.queue.closed,
                forall|i: int| 0 <= i < w ==> !(#[trigger] self.workers@[i] is Running),
                self.next_job == old(self).next_job,
            decreases n - w,
        {
            match self.workers[w] {
                WorkerState::Running(_) => {
                    let _ = self.complete(w);
                },
                _ => {},
            }
            w = w + 1;
        }
        // Drain the queue: a free worker picks up each remaining job and
        // finishes it.
        while self.queue.pending.len() > 0
            invariant
                self.wf(),
                n == self.workers@.len(),
                self.queue.closed,
                forall|i: int| 0 <= i < n ==> !(#[trigger] self.workers@[i] is Running),
                self.next_job == old(self).next_job,
            decreases self.queue.pending@.len(),
        {
            proof {
                assert(!(self.workers@[0] is Done));
            }
            let _ = self.deliver(0);
            let _ = self.complete(0);
        }
        // Every worker now observes the closed, empty queue and stops.
        let mut w: usize = 0;
        while w < n
            invariant
                self.wf(),
                n == self.workers@.len(),
                w <= n,
                self.queue.closed,
                self.queue.pending@.len() == 0,
                forall|i: int| 0 <= i < n ==> !(#[trigger] self.workers@[i] is Running),
                forall|i: int| 0 <= i < w ==> #[trigger] self.workers@[i] is Done,
                self.next_job == old(self).next_job,
            decreases n - w,
        {
            match self.workers[w] {
                WorkerState::Idle => {
                    self.retire(w);
                },
                _ => {},
            }
            w = w + 1;
        }
        // Join each worker, in order of identity.
        while self.joined < n
            invariant
                self.wf(),
                n == self.workers@.len(),
                self.queue.closed,
                self.queue.pending@.len() == 0,
                forall|i: int| 0 <= i < n ==> #[trigger] self.workers@[i] is Done,
                self.next_job == old(self).next_job,
            decreases n - self.joined,
        {
            self.join_next();
        }
        proof {
            lemma_running_jobs_none(self.workers@);
            assert(seq_multiset(self.executed@) =~= seq_multiset(self.executed@).add(
                running_jobs(self.workers@),
            ));
            assert(self.queue_lo() == self.next_job);
            lemma_seq_multiset_len(self.executed@);
            lemma_id_interval_len(0, self.next_job as int);
        }
    }
}

/// Law: at every reachable pool state, every job is in exactly one place.
/// A job the pool has accepted and already handed to a worker (identifier
/// below `queue_lo()`) is completed or held by exactly one worker, exactly
/// once, and is no longer queued; a job still queued sits at exactly one
/// position in the queue and has never been run; an identifier the pool
/// has not issued is nowhere. Delivery is therefore exactly-once: no job
/// is lost, duplicated, or run twice.
pub proof fn lemma_exactly_once(p: ThreadPool, j: u64)
    requires
        p.wf(),
    ensures
        j < p.queue_lo() ==> seq_multiset(p.executed@).count(j) + running_jobs(p.workers@).count(
            j,
        ) == 1 && !p.queue.pending@.contains(j),
        p.queue_lo() <= j < p.next_job ==> p.queue.pending@[j - p.queue_lo()] == j && seq_multiset(
            p.executed@,
        ).count(j) == 0 && running_jobs(p.workers@).count(j) == 0,
        j >= p.next_job ==> seq_multiset(p.executed@).count(j) == 0 && running_jobs(
            p.workers@,
        ).count(j) == 0 && !p.queue.pending@.contains(j),
{
    lemma_id_interval_count(0, p.queue_lo(), j);
    assert(seq_multiset(p.executed@).add(running_jobs(p.workers@)).count(j) == id_interval(
        0,
        p.queue_lo(),
    ).count(j));
    if p.queue.pending@.contains(j) {
        let i = choose|i: int| 0 <= i < p.queue.pending@.len() && p.queue.pending@[i] == j;
        assert(j == p.queue_lo() + i);
    }
}

/// Law: a well-formed pool always has at least one live worker, and while
/// it is open no worker has terminated and none has been joined — a pool
/// that accepts jobs can run them.
pub proof fn lemma_live_workers(p: ThreadPool)
    requires
        p.wf(),
    ensures
        p.workers@.len() > 0,
        p.spec_phase() is Open ==> p.joined == 0 && forall|i: int|
            0 <= i < p.workers@.len() ==> !(#[trigger] p.workers@[i] is Done),
{
    if p.spec_phase() is Open && p.joined > 0 {
        assert(p.workers@[0] is Done);
    }
}

/// Law: a single worker serializes jobs. With one worker, the completion
/// log is exactly the submission order: job `i` is the `i`-th entry, so
/// any job submitted later completes strictly after every job submitted
/// earlier.
pub proof fn lemma_single_worker_serializes(p: ThreadPool)
    requires
        p.wf(),
        p.workers@.len() == 1,
    ensures
        forall|i: int| 0 <= i < p.executed@.len() ==> p.executed@[i] == i,
        forall|i: int, k: int|
            0 <= i < k < p.executed@.len() ==> p.executed@[i] < p.executed@[k],
{
}

/// What a worker's loop does with each thing it receives: run a delivered
/// job and keep looping, or stop once the queue reports disconnection.
pub fn worker_step(msg: RecvOutcome) -> (a: WorkerAction)
    ensures
        msg matches RecvOutcome::Job(j) ==> a == WorkerAction::Run(j),
        msg is Disconnected ==> a == WorkerAction::Stop,
{
    match msg {
        RecvOutcome::Job(j) => WorkerAction::Run(j),
        RecvOutcome::Disconnected => WorkerAction::Stop,
    }
}

} // verus!

