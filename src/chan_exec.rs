//! Admission rules of the bounded part executor.
use vstd::prelude::*;

verus! {

/// Why a submission to the part executor did not produce a result.
#[derive(Debug, Clone, Copy, PartialEq, Eq, Structural)]
pub enum Error {
    /// The queue was closed: the pump is gone.
    Send,
    /// The reply slot was dropped before a result was delivered.
    Recv,
}

/// Where part tasks are between their submission and their completion: a
/// driver holds at most `inner` submissions waiting to be queued, the queue
/// holds at most `capacity`, and at most `workers` run at once.
#[derive(Debug, Clone, Copy, PartialEq, Eq, Structural)]
pub struct Backlog {
    pub capacity: usize,
    pub workers: usize,
    pub inner: usize,
    pub waiting: usize,
    pub queued: usize,
    pub running: usize,
}

impl Backlog {
    /// Each stage within its bound.
    pub open spec fn wf(&self) -> bool {
        &&& self.waiting <= self.inner
        &&& self.queued <= self.capacity
        &&& self.running <= self.workers
    }

    /// Part tasks between submission and completion.
    pub open spec fn resident(&self) -> nat {
        (self.waiting + self.queued + self.running) as nat
    }

    /// An empty executor with a queue of `capacity` and `workers` workers,
    /// fed by a driver that keeps at most `inner` submissions in flight.
    pub fn new(capacity: usize, workers: usize, inner: usize) -> (r: Backlog)
        ensures
            r.wf(),
            r == (Backlog { capacity, workers, inner, waiting: 0, queued: 0, running: 0 }),
    {
        Backlog { capacity, workers, inner, waiting: 0, queued: 0, running: 0 }
    }

    /// A driver submits a part task, unless it already holds `inner` of them.
    pub fn submit(&mut self) -> (r: bool)
        requires
            old(self).wf(),
        ensures
            final(self).wf(),
            r == (old(self).waiting < old(self).inner),
            r ==> *final(self) == (Backlog { waiting: (old(self).waiting + 1) as usize, ..*old(self) }),
            !r ==> *final(self) == *old(self),
    {
        if self.waiting < self.inner {
            self.waiting = self.waiting + 1;
            true
        } else {
            false
        }
    }

    /// A waiting submission enters the queue, unless the queue is full (the
    /// submitter then stays suspended).
    pub fn enqueue(&mut self) -> (r: bool)
        requires
            old(self).wf(),
        ensures
            final(self).wf(),
            r == (old(self).waiting > 0 && old(self).queued < old(self).capacity),
            r ==> *final(self) == (Backlog {
                waiting: (old(self).waiting - 1) as usize,
                queued: (old(self).queued + 1) as usize,
                ..*old(self)
            }),
            !r ==> *final(self) == *old(self),
    {
        if self.waiting > 0 && self.queued < self.capacity {
            self.waiting = self.waiting - 1;
            self.queued = self.queued + 1;
            true
        } else {
            false
        }
    }

    /// The pump hands a queued task to a worker, if one is free.
    pub fn dispatch(&mut self) -> (r: bool)
        requires
            old(self).wf(),
        ensures
            final(self).wf(),
            r == (old(self).queued > 0 && old(self).running < old(self).workers),
            r ==> *final(self) == (Backlog {
                queued: (old(self).queued - 1) as usize,
                running: (old(self).running + 1) as usize,
                ..*old(self)
            }),
            !r ==> *final(self) == *old(self),
    {
        if self.queued > 0 && self.running < self.workers {
            self.queued = self.queued - 1;
            self.running = self.running + 1;
            true
        } else {
            false
        }
    }

    /// A running task delivers its result and frees its worker.
    pub fn complete(&mut self) -> (r: bool)
        requires
            old(self).wf(),
        ensures
            final(self).wf(),
            r == (old(self).running > 0),
            r ==> *final(self) == (Backlog { running: (old(self).running - 1) as usize, ..*old(self) }),
            !r ==> *final(self) == *old(self),
    {
        if self.running > 0 {
            self.running = self.running - 1;
            true
        } else {
            false
        }
    }
}

/// In every state the executor can reach, at most
/// `capacity + workers + inner` part tasks are resident.
pub proof fn lemma_backpressure(b: Backlog)
    requires
        b.wf(),
    ensures
        b.resident() <= b.capacity + b.workers + b.inner,
{
}

} // verus!
