//! A pool of background workers: what its workers do next.

use vstd::prelude::*;

verus! {

/// What the workers of a pool count as.
#[derive(Debug, Clone, Copy, PartialEq, Eq, Structural)]
pub enum PoolClass {
    /// Their reads refresh caches.
    Foreground,
    /// Their reads leave caches alone; they are never slowed.
    Flush,
    /// Their reads leave caches alone and they are slowed in favour of others.
    Compaction,
}

impl PoolClass {
    /// Whether the reads of the workers leave caches alone.
    pub fn is_background(self) -> (r: bool)
        ensures
            r == (self != PoolClass::Foreground),
    {
        !matches!(self, PoolClass::Foreground)
    }

    /// Whether the workers are slowed in favour of others.
    pub fn is_compaction(self) -> (r: bool)
        ensures
            r == (self == PoolClass::Compaction),
    {
        matches!(self, PoolClass::Compaction)
    }
}

/// The jobs that wait and the workers that run one.
pub struct PoolState<J> {
    queue: Vec<J>,
    running: usize,
    workers: usize,
}

impl<J> PoolState<J> {
    /// The jobs that wait, the oldest first.
    pub closed spec fn waiting(self) -> Seq<J> {
        self.queue@
    }

    /// The jobs that run.
    pub closed spec fn active(self) -> nat {
        self.running as nat
    }

    /// The workers.
    pub closed spec fn size(self) -> nat {
        self.workers as nat
    }

    /// There is a worker, and no more jobs run than there are workers.
    pub open spec fn wf(self) -> bool {
        1 <= self.size() && self.active() <= self.size()
    }

    /// An idle pool of `n_workers` workers, or of one if that is none.
    pub fn new(n_workers: usize) -> (r: Self)
        ensures
            r.wf(),
            r.size() == if n_workers == 0 {
                1
            } else {
                n_workers as nat
            },
            r.active() == 0,
            r.waiting() == Seq::<J>::empty(),
    {
        let workers: usize = if n_workers == 0 {
            1
        } else {
            n_workers
        };
        PoolState { queue: Vec::new(), running: 0, workers }
    }

    /// Adds a job behind those that wait.
    pub fn submit(&mut self, job: J)
        requires
            old(self).wf(),
        ensures
            final(self).wf(),
            final(self).waiting() == old(self).waiting().push(job),
            final(self).active() == old(self).active(),
            final(self).size() == old(self).size(),
    {
        self.queue.push(job);
    }

    /// Gives the oldest job to a worker, if a job waits and a worker is idle.
    pub fn take(&mut self) -> (r: Option<J>)
        requires
            old(self).wf(),
        ensures
            final(self).wf(),
            final(self).size() == old(self).size(),
            r is Some <==> old(self).waiting().len() > 0 && old(self).active() < old(self).size(),
            match r {
                Some(job) => {
                    &&& job == old(self).waiting()[0]
                    &&& final(self).waiting() == old(self).waiting().skip(1)
                    &&& final(self).active() == old(self).active() + 1
                },
                None => *final(self) == *old(self),
            },
    {
        if self.queue.len() == 0 || self.running >= self.workers {
            return None;
        }
        let ghost before = self.queue@;
        let job = self.queue.remove(0);
        assert(self.queue@ =~= before.skip(1));
        self.running += 1;
        Some(job)
    }

    /// A job has ended, by returning or by a panic: its worker is idle again.
    pub fn ended(&mut self)
        requires
            old(self).wf(),
            old(self).active() > 0,
        ensures
            final(self).wf(),
            final(self).waiting() == old(self).waiting(),
            final(self).active() == old(self).active() - 1,
            final(self).size() == old(self).size(),
    {
        self.running -= 1;
    }

    /// The number of workers.
    pub fn worker_count(&self) -> (r: usize)
        ensures
            r == self.size(),
    {
        self.workers
    }
}

} // verus!
