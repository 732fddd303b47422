//! The bookkeeping of a bounded worker pool: a queue of jobs, a fixed number
//! of workers, and the rules by which jobs are handed out and the pool shuts
//! down.
//!
//! The pool holds no threads. Whoever runs the threads keeps one `ThreadPool`
//! behind a lock; each worker thread asks it with `poll` what to do, runs the
//! job it is given, and reports back with `finish`.

use std::collections::VecDeque;
use vstd::prelude::*;

verus! {

/// What a worker is doing.
#[derive(Debug, Clone, Copy, PartialEq, Eq, Structural)]
pub enum WorkerState {
    /// Waiting for a job.
    Idle,
    /// Running a job.
    Running,
    /// Gone: it saw the pool closed, or never started.
    Stopped,
}

/// Why the pool did not take a job.
#[derive(Debug, Clone, Copy, PartialEq, Eq, Structural)]
pub enum PoolError {
    /// The pool has begun to shut down.
    PoolClosed,
}

impl PoolError {
    /// A short description of the error.
    pub fn message(&self) -> (s: &'static str)
        ensures
            s@ == "unable to pass job to worker, the pool is closed"@,
    {
        match self {
            PoolError::PoolClosed => "unable to pass job to worker, the pool is closed",
        }
    }
}

/// What a worker that asks for work is told to do.
#[derive(Debug)]
pub enum Assignment<T> {
    /// Run this job, then report with `finish`.
    Run(T),
    /// Wait until a job is submitted or the pool shuts down, then ask again.
    Wait,
    /// Leave: the pool is closed.
    Stop,
}

/// The state of a pool: what each worker is doing, the jobs that wait, oldest
/// first, and whether the pool still takes jobs.
pub struct PoolView<T> {
    pub workers: Seq<WorkerState>,
    pub queue: Seq<T>,
    pub open: bool,
}

/// The number of running workers among `workers`.
pub open spec fn count_running(workers: Seq<WorkerState>) -> nat
    decreases workers.len(),
{
    if workers.len() == 0 {
        0
    } else {
        count_running(workers.drop_last()) + if workers.last() == WorkerState::Running {
            1nat
        } else {
            0nat
        }
    }
}

impl<T> PoolView<T> {
    /// A pool of `size` idle workers with no job waiting.
    pub open spec fn fresh(size: nat) -> PoolView<T> {
        PoolView {
            workers: Seq::new(size, |i: int| WorkerState::Idle),
            queue: Seq::empty(),
            open: true,
        }
    }

    /// A valid pool has at least one worker slot, and no job waits in a closed
    /// pool.
    pub open spec fn wf(self) -> bool {
        &&& self.workers.len() >= 1
        &&& !self.open ==> self.queue.len() == 0
    }

    /// Whether `worker` names a worker of the pool.
    pub open spec fn has_worker(self, worker: int) -> bool {
        0 <= worker < self.workers.len()
    }

    /// The number of workers that are running a job.
    pub open spec fn running(self) -> nat {
        count_running(self.workers)
    }

    /// Whether every worker has stopped.
    pub open spec fn terminated(self) -> bool {
        forall|w: int| 0 <= w < self.workers.len() ==> self.workers[w] == WorkerState::Stopped
    }

    /// Submitting `job`: an open pool puts it at the back of the queue; a
    /// closed pool refuses it and does not change.
    pub open spec fn submit(self, job: T) -> (PoolView<T>, Result<(), PoolError>) {
        if self.open {
            (PoolView { workers: self.workers, queue: self.queue.push(job), open: true }, Ok(()))
        } else {
            (self, Err(PoolError::PoolClosed))
        }
    }

    /// The worker `worker` asks for work.
    ///
    /// An idle worker stops if the pool is closed; else it takes the oldest
    /// waiting job, or waits if there is none. A running worker is told to
    /// wait, a stopped or unknown one to stop; neither changes the pool.
    pub open spec fn poll(self, worker: int) -> (PoolView<T>, Assignment<T>) {
        if !self.has_worker(worker) || self.workers[worker] == WorkerState::Stopped {
            (self, Assignment::Stop)
        } else if self.workers[worker] == WorkerState::Running {
            (self, Assignment::Wait)
        } else if !self.open {
            (
                PoolView {
                    workers: self.workers.update(worker, WorkerState::Stopped),
                    queue: self.queue,
                    open: false,
                },
                Assignment::Stop,
            )
        } else if self.queue.len() > 0 {
            (
                PoolView {
                    workers: self.workers.update(worker, WorkerState::Running),
                    queue: self.queue.drop_first(),
                    open: true,
                },
                Assignment::Run(self.queue[0]),
            )
        } else {
            (self, Assignment::Wait)
        }
    }

    /// The worker `worker` reports that its job has ended: a running worker
    /// becomes idle. Anything else changes nothing.
    pub open spec fn finish(self, worker: int) -> PoolView<T> {
        if self.has_worker(worker) && self.workers[worker] == WorkerState::Running {
            PoolView {
                workers: self.workers.update(worker, WorkerState::Idle),
                queue: self.queue,
                open: self.open,
            }
        } else {
            self
        }
    }

    /// The worker `worker` could not be started: an idle worker becomes
    /// stopped. Anything else changes nothing.
    pub open spec fn retire(self, worker: int) -> PoolView<T> {
        if self.has_worker(worker) && self.workers[worker] == WorkerState::Idle {
            PoolView {
                workers: self.workers.update(worker, WorkerState::Stopped),
                queue: self.queue,
                open: self.open,
            }
        } else {
            self
        }
    }

    /// Shutting down: the pool closes and the jobs that still wait are
    /// dropped. Workers are left as they are.
    pub open spec fn shut_down(self) -> PoolView<T> {
        PoolView { workers: self.workers, queue: Seq::empty(), open: false }
    }
}

/// The bookkeeping of a pool of workers that take jobs of type `T` from a
/// shared queue.
pub struct ThreadPool<T> {
    workers: Vec<WorkerState>,
    queue: VecDeque<T>,
    open: bool,
}

impl<T> View for ThreadPool<T> {
    type V = PoolView<T>;

    closed spec fn view(&self) -> PoolView<T> {
        PoolView { workers: self.workers@, queue: self.queue@, open: self.open }
    }
}

impl<T> ThreadPool<T> {
    /// A pool of `size` idle workers. A pool needs at least one worker.
    pub fn new(size: usize) -> (pool: Self)
        requires
            size >= 1,
        ensures
            pool@ == PoolView::<T>::fresh(size as nat),
            pool@.wf(),
    {
        let mut workers: Vec<WorkerState> = Vec::new();
        let mut i: usize = 0;
        while i < size
            invariant
                i <= size,
                workers@ == Seq::new(i as nat, |k: int| WorkerState::Idle),
            decreases size - i,
        {
            workers.push(WorkerState::Idle);
            assert(workers@ == Seq::new((i + 1) as nat, |k: int| WorkerState::Idle));
            i += 1;
        }
        ThreadPool { workers, queue: VecDeque::new(), open: true }
    }

    /// Submits a job. After `shutdown` the job is refused with `PoolClosed`.
    pub fn execute(&mut self, job: T) -> (r: Result<(), PoolError>)
        ensures
            (final(self)@, r) == old(self)@.submit(job),
    {
        if self.open {
            self.queue.push_back(job);
            Ok(())
        } else {
            Err(PoolError::PoolClosed)
        }
    }

    /// Tells the worker `worker` what to do next.
    pub fn poll(&mut self, worker: usize) -> (a: Assignment<T>)
        ensures
            (final(self)@, a) == old(self)@.poll(worker as int),
    {
        if worker >= self.workers.len() {
            return Assignment::Stop;
        }
        match self.workers[worker] {
            WorkerState::Stopped => Assignment::Stop,
            WorkerState::Running => Assignment::Wait,
            WorkerState::Idle => {
                if !self.open {
                    self.workers.set(worker, WorkerState::Stopped);
                    Assignment::Stop
                } else {
                    match self.queue.pop_front() {
                        Some(job) => {
                            self.workers.set(worker, WorkerState::Running);
                            assert(self.queue@ == old(self).queue@.drop_first());
                            Assignment::Run(job)
                        },
                        None => Assignment::Wait,
                    }
                }
            },
        }
    }

    /// Records that the worker `worker` has ended its job.
    pub fn finish(&mut self, worker: usize)
        ensures
            final(self)@ == old(self)@.finish(worker as int),
    {
        if worker < self.workers.len() {
            match self.workers[worker] {
                WorkerState::Running => {
                    self.workers.set(worker, WorkerState::Idle);
                },
                _ => {},
            }
        }
    }

    /// Records that the worker `worker` could not be started.
    pub fn retire(&mut self, worker: usize)
        ensures
            final(self)@ == old(self)@.retire(worker as int),
    {
        if worker < self.workers.len() {
            match self.workers[worker] {
                WorkerState::Idle => {
                    self.workers.set(worker, WorkerState::Stopped);
                },
                _ => {},
            }
        }
    }

    /// Closes the pool and drops the jobs that still wait. Returns how many
    /// were dropped.
    pub fn shutdown(&mut self) -> (dropped: usize)
        ensures
            final(self)@ == old(self)@.shut_down(),
            dropped == old(self)@.queue.len(),
    {
        let dropped = self.queue.len();
        self.queue.clear();
        self.open = false;
        dropped
    }

    /// The number of worker slots.
    pub fn size(&self) -> (n: usize)
        ensures
            n == self@.workers.len(),
    {
        self.workers.len()
    }

    /// Whether the pool still takes jobs.
    pub fn is_open(&self) -> (b: bool)
        ensures
            b == self@.open,
    {
        self.open
    }

    /// The number of jobs that wait for a worker.
    pub fn queued(&self) -> (n: usize)
        ensures
            n == self@.queue.len(),
    {
        self.queue.len()
    }

    /// What the worker `worker` is doing; `None` if the pool has no such
    /// worker.
    pub fn worker_state(&self, worker: usize) -> (state: Option<WorkerState>)
        ensures
            state == if self@.has_worker(worker as int) {
                Some(self@.workers[worker as int])
            } else {
                None
            },
    {
        if worker < self.workers.len() {
            Some(self.workers[worker])
        } else {
            None
        }
    }

    /// The number of workers that are running a job.
    pub fn running(&self) -> (n: usize)
        ensures
            n == self@.running(),
            n <= self@.workers.len(),
    {
        let mut n: usize = 0;
        let mut i: usize = 0;
        assert(self.workers@.take(0) == Seq::<WorkerState>::empty());
        while i < self.workers.len()
            invariant
                i <= self.workers.len(),
                n == count_running(self.workers@.take(i as int)),
                n <= i,
            decreases self.workers.len() - i,
        {
            assert(self.workers@.take(i + 1).drop_last() == self.workers@.take(i as int));
            match self.workers[i] {
                WorkerState::Running => {
                    n += 1;
                },
                _ => {},
            }
            i += 1;
        }
        assert(self.workers@.take(i as int) == self.workers@);
        n
    }

    /// Whether every worker has stopped, so that their threads can be joined.
    pub fn is_terminated(&self) -> (b: bool)
        ensures
            b == self@.terminated(),
    {
        let mut i: usize = 0;
        while i < self.workers.len()
            invariant
                i <= self.workers.len(),
                forall|w: int| 0 <= w < i ==> self.workers@[w] == WorkerState::Stopped,
            decreases self.workers.len() - i,
        {
            match self.workers[i] {
                WorkerState::Stopped => {},
                _ => {
                    return false;
                },
            }
            i += 1;
        }
        true
    }
}

/// One thing that can happen to a pool.
pub enum PoolStep<T> {
    /// A job is submitted.
    Submit(T),
    /// A worker asks for work.
    Poll(int),
    /// A worker reports the end of its job.
    Finish(int),
    /// A worker turns out not to have started.
    Retire(int),
    /// The pool shuts down.
    ShutDown,
}

impl<T> PoolView<T> {
    /// The pool after `step`.
    pub open spec fn step(self, step: PoolStep<T>) -> PoolView<T> {
        match step {
            PoolStep::Submit(job) => self.submit(job).0,
            PoolStep::Poll(worker) => self.poll(worker).0,
            PoolStep::Finish(worker) => self.finish(worker),
            PoolStep::Retire(worker) => self.retire(worker),
            PoolStep::ShutDown => self.shut_down(),
        }
    }

    /// The pool after `steps`, taken in order.
    pub open spec fn run(self, steps: Seq<PoolStep<T>>) -> PoolView<T>
        decreases steps.len(),
    {
        if steps.len() == 0 {
            self
        } else {
            self.run(steps.drop_last()).step(steps.last())
        }
    }

    /// The pool after the worker `worker` has, `rounds` times over, asked for
    /// work and ended the job it was given, and the jobs that it was given, in
    /// order. The worker goes no further once it is given no job.
    pub open spec fn serve(self, worker: int, rounds: nat) -> (PoolView<T>, Seq<T>)
        decreases rounds,
    {
        if rounds == 0 {
            (self, Seq::empty())
        } else {
            match self.poll(worker).1 {
                Assignment::Run(job) => {
                    let rest = self.poll(worker).0.finish(worker).serve(
                        worker,
                        (rounds - 1) as nat,
                    );
                    (rest.0, seq![job] + rest.1)
                },
                _ => (self.poll(worker).0, Seq::empty()),
            }
        }
    }

    /// The pool after each of its first `n` workers has ended the job it was
    /// running, if any, and asked for work once more.
    pub open spec fn settle(self, n: nat) -> PoolView<T>
        decreases n,
    {
        if n == 0 {
            self
        } else {
            self.settle((n - 1) as nat).finish(n - 1).poll(n - 1).0
        }
    }
}

/// No step makes a valid pool invalid, and none changes the number of
/// workers.
pub proof fn lemma_step_keeps_valid<T>(pool: PoolView<T>, step: PoolStep<T>)
    requires
        pool.wf(),
    ensures
        pool.step(step).wf(),
        pool.step(step).workers.len() == pool.workers.len(),
{
}

/// Whatever happens to a valid pool, it stays valid and keeps its number of
/// workers.
pub proof fn lemma_run_keeps_valid<T>(pool: PoolView<T>, steps: Seq<PoolStep<T>>)
    requires
        pool.wf(),
    ensures
        pool.run(steps).wf(),
        pool.run(steps).workers.len() == pool.workers.len(),
    decreases steps.len(),
{
    if steps.len() > 0 {
        lemma_run_keeps_valid(pool, steps.drop_last());
        lemma_step_keeps_valid(pool.run(steps.drop_last()), steps.last());
    }
}

/// A job that is submitted is either put at the back of the queue or refused
/// with `PoolClosed`, and it is refused exactly when the pool is closed: no job
/// is dropped without a word.
pub proof fn lemma_submit_takes_or_refuses<T>(pool: PoolView<T>, job: T)
    ensures
        pool.open ==> pool.submit(job).1 == Ok::<(), PoolError>(()) && pool.submit(job).0.queue
            == pool.queue.push(job),
        !pool.open ==> pool.submit(job) == (pool, Err::<(), PoolError>(PoolError::PoolClosed)),
{
}

/// Once a pool has shut down, it refuses every job, whatever has happened
/// since: nothing opens a closed pool again.
pub proof fn lemma_submit_after_shutdown_fails<T>(
    pool: PoolView<T>,
    steps: Seq<PoolStep<T>>,
    job: T,
)
    ensures
        ({
            let later = pool.shut_down().run(steps);
            &&& !later.open
            &&& later.queue.len() == 0
            &&& later.submit(job) == (later, Err::<(), PoolError>(PoolError::PoolClosed))
        }),
    decreases steps.len(),
{
    if steps.len() > 0 {
        lemma_submit_after_shutdown_fails(pool, steps.drop_last(), job);
    }
}

/// No more workers run jobs at once than the pool has workers.
pub proof fn lemma_running_is_bounded<T>(pool: PoolView<T>)
    ensures
        pool.running() <= pool.workers.len(),
{
    lemma_count_running_bound(pool.workers);
}

proof fn lemma_count_running_bound(workers: Seq<WorkerState>)
    ensures
        count_running(workers) <= workers.len(),
    decreases workers.len(),
{
    if workers.len() > 0 {
        lemma_count_running_bound(workers.drop_last());
    }
}

/// A job that a worker is given leaves the queue as it is handed out, so that
/// no other worker can be given it; and while a job waits in an open pool, an
/// idle worker that asks for work is given the oldest one.
pub proof fn lemma_job_goes_to_one_worker<T>(pool: PoolView<T>, worker: int)
    ensures
        pool.poll(worker).1 matches Assignment::Run(job) ==> {
            &&& pool.open
            &&& pool.queue.len() > 0
            &&& job == pool.queue[0]
            &&& pool.poll(worker).0.queue == pool.queue.drop_first()
            &&& pool.workers[worker] == WorkerState::Idle
            &&& pool.poll(worker).0.workers[worker] == WorkerState::Running
        },
        pool.open && pool.queue.len() > 0 && pool.has_worker(worker) && pool.workers[worker]
            == WorkerState::Idle ==> pool.poll(worker).1 == Assignment::Run(pool.queue[0]),
{
}

/// In an open pool, one idle worker that keeps asking for work is given every
/// waiting job, each once and in the order of submission, and leaves the queue
/// empty.
pub proof fn lemma_waiting_jobs_are_served<T>(pool: PoolView<T>, worker: int)
    requires
        pool.open,
        pool.has_worker(worker),
        pool.workers[worker] == WorkerState::Idle,
    ensures
        pool.serve(worker, pool.queue.len()) == (
            PoolView { workers: pool.workers, queue: Seq::<T>::empty(), open: true },
            pool.queue,
        ),
    decreases pool.queue.len(),
{
    if pool.queue.len() > 0 {
        let next = pool.poll(worker).0.finish(worker);
        assert(next.workers == pool.workers);
        assert(next.queue == pool.queue.drop_first());
        lemma_waiting_jobs_are_served(next, worker);
        assert(seq![pool.queue[0]] + pool.queue.drop_first() == pool.queue);
    } else {
        assert(pool.queue == Seq::<T>::empty());
    }
}

/// In a closed pool, a worker that ends its job and asks for work is told to
/// stop and becomes stopped. Nothing else in the pool changes, and no job is
/// handed out.
pub proof fn lemma_closed_pool_stops_worker<T>(pool: PoolView<T>, worker: int)
    requires
        !pool.open,
        pool.has_worker(worker),
    ensures
        ({
            let asked = pool.finish(worker).poll(worker);
            &&& asked.1 == Assignment::<T>::Stop
            &&& asked.0 == PoolView {
                workers: pool.workers.update(worker, WorkerState::Stopped),
                queue: pool.queue,
                open: false,
            }
        }),
{
    let asked = pool.finish(worker).poll(worker);
    assert(asked.0.workers == pool.workers.update(worker, WorkerState::Stopped));
}

/// After shutdown, the pool has terminated as soon as each worker has ended
/// the job it was running and asked for work once: it takes no more than that,
/// whether or not jobs were waiting.
pub proof fn lemma_shutdown_terminates<T>(pool: PoolView<T>)
    ensures
        pool.shut_down().settle(pool.workers.len()).terminated(),
{
    lemma_settle_stops_workers(pool.shut_down(), pool.workers.len());
}

proof fn lemma_settle_stops_workers<T>(pool: PoolView<T>, n: nat)
    requires
        !pool.open,
        n <= pool.workers.len(),
    ensures
        !pool.settle(n).open,
        pool.settle(n).queue == pool.queue,
        pool.settle(n).workers.len() == pool.workers.len(),
        forall|w: int| 0 <= w < n ==> pool.settle(n).workers[w] == WorkerState::Stopped,
        forall|w: int| n <= w < pool.workers.len() ==> pool.settle(n).workers[w] == pool.workers[w],
    decreases n,
{
    if n > 0 {
        lemma_settle_stops_workers(pool, (n - 1) as nat);
        lemma_closed_pool_stops_worker(pool.settle((n - 1) as nat), n - 1);
    }
}

} // verus!
