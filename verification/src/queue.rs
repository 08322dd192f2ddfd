//! Model of the dispatch channel that carries jobs from producers to
//! workers: an unbounded first-in-first-out queue whose sending side can be
//! closed exactly once, after which receivers drain what is buffered and
//! then observe disconnection.

use vstd::prelude::*;

verus! {

/// What a worker observes when it asks the queue for work: either the
/// oldest buffered job, or the fact that the queue is closed and empty.
#[derive(PartialEq, Eq, Structural, Debug, Clone, Copy)]
pub enum RecvOutcome {
    Job(u64),
    Disconnected,
}

/// The dispatch channel, modelled as the sequence of job identifiers that
/// have been sent but not yet received, plus whether the sending side has
/// been released.
pub struct JobQueue {
    pub pending: Vec<u64>,
    pub closed: bool,
}

impl JobQueue {
    /// A fresh queue: open, with nothing buffered.
    pub fn new() -> (q: JobQueue)
        ensures
            q.pending@ =~= Seq::<u64>::empty(),
            !q.closed,
    {
        JobQueue { pending: Vec::new(), closed: false }
    }

    /// Enqueue a job. Succeeds exactly when the queue is still open; a send
    /// on a closed queue changes nothing and reports the disconnection.
    pub fn send(&mut self, job: u64) -> (r: Result<(), ()>)
        ensures
            r is Ok <==> !old(self).closed,
            old(self).closed ==> *final(self) == *old(self),
            !old(self).closed ==> final(self).pending@ =~= old(self).pending@.push(job),
            final(self).closed == old(self).closed,
    {
        if self.closed {
            Err(())
        } else {
            self.pending.push(job);
            Ok(())
        }
    }

    /// Receive the oldest buffered job, or observe disconnection. A real
    /// receiver blocks while the queue is open and empty, so this step is
    /// taken only once a job is buffered or the queue is closed.
    pub fn recv(&mut self) -> (r: RecvOutcome)
        requires
            old(self).pending@.len() > 0 || old(self).closed,
        ensures
            old(self).pending@.len() > 0 ==> {
                &&& r == RecvOutcome::Job(old(self).pending@[0])
                &&& final(self).pending@ =~= old(self).pending@.drop_first()
                &&& final(self).closed == old(self).closed
            },
            old(self).pending@.len() == 0 ==> r == RecvOutcome::Disconnected && *final(self)
                == *old(self),
    {
        if self.pending.len() > 0 {
            let job = self.pending.remove(0);
            RecvOutcome::Job(job)
        } else {
            RecvOutcome::Disconnected
        }
    }

    /// Release the sending side. Irreversible; buffered jobs stay available.
    pub fn close(&mut self)
        ensures
            final(self).closed,
            final(self).pending@ =~= old(self).pending@,
    {
        self.closed = true;
    }
}

} // verus!
