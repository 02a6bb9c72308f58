//! The worker-pool protocol: a fixed set of workers draining one shared
//! FIFO queue of messages.
//!
//! A message is either a one-shot job or a shutdown signal.  A worker takes
//! the front message; a job is run to completion, a signal retires the
//! worker.  Teardown pushes exactly one signal per worker behind everything
//! already queued, so every submitted job runs before any worker exits, each
//! job exactly once, and afterwards no worker is left.  The queue is
//! unbounded: no job is ever dropped, only deferred.
//!
//! This module is the protocol itself, over plain job values; the threads
//! that animate it live outside the library and mirror these steps one call
//! each.

use vstd::prelude::*;

verus! {

/// One message on the pool's queue.
pub enum PoolTask<J> {
    /// A one-shot unit of work.
    Job(J),
    /// The signal that retires the worker that takes it.
    Terminate,
}

/// The jobs among the queued messages, in queue order.
pub open spec fn jobs_of<J>(q: Seq<PoolTask<J>>) -> Seq<J>
    decreases q.len(),
{
    if q.len() == 0 {
        Seq::empty()
    } else {
        match q[0] {
            PoolTask::Job(j) => seq![j] + jobs_of(q.skip(1)),
            PoolTask::Terminate => jobs_of(q.skip(1)),
        }
    }
}

/// How many shutdown signals the queue holds.
pub open spec fn terms_of<J>(q: Seq<PoolTask<J>>) -> int
    decreases q.len(),
{
    if q.len() == 0 {
        0
    } else {
        match q[0] {
            PoolTask::Job(_) => terms_of(q.skip(1)),
            PoolTask::Terminate => 1 + terms_of(q.skip(1)),
        }
    }
}

/// `k` shutdown signals in a row.
pub open spec fn terminates<J>(k: int) -> Seq<PoolTask<J>> {
    Seq::new(k as nat, |i: int| PoolTask::Terminate)
}

/// The signal count is never negative.
pub proof fn lemma_terms_nonneg<J>(q: Seq<PoolTask<J>>)
    ensures
        terms_of(q) >= 0,
    decreases q.len(),
{
    if q.len() == 0 {
    } else {
        lemma_terms_nonneg(q.skip(1));
    }
}

proof fn lemma_pool_push<J>(q: Seq<PoolTask<J>>, t: PoolTask<J>)
    ensures
        jobs_of(q.push(t)) == (match t {
            PoolTask::Job(j) => jobs_of(q).push(j),
            PoolTask::Terminate => jobs_of(q),
        }),
        terms_of(q.push(t)) == (match t {
            PoolTask::Job(_) => terms_of(q),
            PoolTask::Terminate => terms_of(q) + 1,
        }),
    decreases q.len(),
{
    if q.len() == 0 {
        assert(q.push(t)[0] == t);
        assert(q.push(t).skip(1) =~= Seq::<PoolTask<J>>::empty());
        assert(jobs_of(Seq::<PoolTask<J>>::empty()) == Seq::<J>::empty());
        assert(terms_of(Seq::<PoolTask<J>>::empty()) == 0);
        match t {
            PoolTask::Job(j) => {
                assert(jobs_of(q.push(t)) =~= seq![j] + Seq::<J>::empty());
                assert(seq![j] + Seq::<J>::empty() =~= jobs_of(q).push(j));
            },
            PoolTask::Terminate => {},
        }
    } else {
        assert(q.push(t)[0] == q[0]);
        assert(q.push(t).skip(1) =~= q.skip(1).push(t));
        assert(jobs_of(q.push(t).skip(1)) == jobs_of(q.skip(1).push(t)));
        assert(terms_of(q.push(t).skip(1)) == terms_of(q.skip(1).push(t)));
        lemma_pool_push(q.skip(1), t);
        match (q[0], t) {
            (PoolTask::Job(j0), PoolTask::Job(j)) => {
                assert(seq![j0] + jobs_of(q.skip(1)).push(j) =~= (seq![j0] + jobs_of(
                    q.skip(1),
                )).push(j));
            },
            _ => {},
        }
    }
}

/// Splitting the queue splits its jobs and its signal count.
pub proof fn lemma_pool_concat<J>(a: Seq<PoolTask<J>>, b: Seq<PoolTask<J>>)
    ensures
        jobs_of(a + b) == jobs_of(a) + jobs_of(b),
        terms_of(a + b) == terms_of(a) + terms_of(b),
    decreases a.len(),
{
    if a.len() == 0 {
        assert(a + b =~= b);
        assert(jobs_of(a) + jobs_of(b) =~= jobs_of(b));
    } else {
        assert((a + b)[0] == a[0]);
        assert((a + b).skip(1) =~= a.skip(1) + b);
        lemma_pool_concat(a.skip(1), b);
        match a[0] {
            PoolTask::Job(j0) => {
                assert(seq![j0] + (jobs_of(a.skip(1)) + jobs_of(b)) =~= (seq![j0] + jobs_of(
                    a.skip(1),
                )) + jobs_of(b));
            },
            PoolTask::Terminate => {},
        }
    }
}

/// A run of signals holds no job and `k` signals.
pub proof fn lemma_terminates<J>(k: int)
    requires
        k >= 0,
    ensures
        jobs_of(terminates::<J>(k)) == Seq::<J>::empty(),
        terms_of(terminates::<J>(k)) == k,
    decreases k,
{
    if k == 0 {
    } else {
        assert(terminates::<J>(k).skip(1) =~= terminates::<J>(k - 1));
        lemma_terminates::<J>(k - 1);
    }
}

/// Wrapping jobs as messages keeps exactly those jobs and no signal.
pub proof fn lemma_jobs_as_tasks<J>(js: Seq<J>)
    ensures
        jobs_of(js.map_values(|j: J| PoolTask::Job(j))) == js,
        terms_of(js.map_values(|j: J| PoolTask::Job(j))) == 0,
    decreases js.len(),
{
    let q = js.map_values(|j: J| PoolTask::Job(j));
    if js.len() == 0 {
    } else {
        assert(q[0] == PoolTask::Job(js[0]));
        assert(q.skip(1) =~= js.skip(1).map_values(|j: J| PoolTask::Job(j)));
        lemma_jobs_as_tasks(js.skip(1));
        assert(seq![js[0]] + js.skip(1) =~= js);
    }
}

/// A queue of `n` jobs followed by `k` signals holds exactly those `n` jobs,
/// each once and in order, and exactly `k` signals.  With `run_all`'s
/// contract: draining such a queue executes every submitted job exactly once
/// and then retires all `k` workers, none earlier, since the signals stand
/// behind every job in the FIFO.
pub proof fn lemma_pool_completes<J>(jobs: Seq<J>, k: int)
    requires
        k >= 0,
    ensures
        jobs_of(jobs.map_values(|j: J| PoolTask::Job(j)) + terminates::<J>(k)) == jobs,
        terms_of(jobs.map_values(|j: J| PoolTask::Job(j)) + terminates::<J>(k)) == k,
{
    lemma_pool_concat(jobs.map_values(|j: J| PoolTask::Job(j)), terminates::<J>(k));
    lemma_jobs_as_tasks(jobs);
    lemma_terminates::<J>(k);
    assert(jobs + Seq::<J>::empty() =~= jobs);
}

/// The pool protocol's state: the message queue, the workers not yet
/// retired, and the jobs executed so far, in execution order.
pub struct PoolModel<J> {
    pub queue: Vec<PoolTask<J>>,
    pub active: usize,
    pub executed: Vec<J>,
}

impl<J> PoolModel<J> {
    /// The queue never holds more signals than there are workers to take
    /// them.
    pub open spec fn wf(&self) -> bool {
        terms_of(self.queue@) <= self.active as int
    }

    /// A pool of `size` workers.  `size` must be positive, as a pool with no
    /// worker could never run a job.
    pub fn new(size: usize) -> (p: Self)
        requires
            size >= 1,
        ensures
            p.queue@ == Seq::<PoolTask<J>>::empty(),
            p.active == size,
            p.executed@ == Seq::<J>::empty(),
            p.wf(),
    {
        PoolModel { queue: Vec::new(), active: size, executed: Vec::new() }
    }

    /// Submit a job: it is queued behind everything already queued, without
    /// blocking and without any job being dropped.
    pub fn execute(&mut self, j: J)
        requires
            old(self).wf(),
        ensures
            final(self).queue@ == old(self).queue@.push(PoolTask::Job(j)),
            final(self).active == old(self).active,
            final(self).executed@ == old(self).executed@,
            final(self).wf(),
    {
        proof {
            lemma_pool_push(self.queue@, PoolTask::Job(j));
        }
        self.queue.push(PoolTask::Job(j));
    }

    /// Begin teardown: queue exactly one shutdown signal per worker, behind
    /// every job already submitted.
    pub fn shutdown(&mut self)
        requires
            old(self).wf(),
            terms_of(old(self).queue@) == 0,
        ensures
            final(self).queue@ == old(self).queue@ + terminates::<J>(old(self).active as int),
            final(self).active == old(self).active,
            final(self).executed@ == old(self).executed@,
            terms_of(final(self).queue@) == old(self).active as int,
            final(self).wf(),
    {
        let n = self.active;
        let mut k: usize = 0;
        proof {
            assert(self.queue@ =~= old(self).queue@ + terminates::<J>(0));
        }
        while k < n
            invariant
                k <= n,
                n == self.active,
                self.active == old(self).active,
                self.executed@ == old(self).executed@,
                terms_of(old(self).queue@) == 0,
                self.queue@ == old(self).queue@ + terminates::<J>(k as int),
            decreases n - k,
        {
            self.queue.push(PoolTask::Terminate);
            proof {
                assert(self.queue@ =~= old(self).queue@ + terminates::<J>(k + 1));
            }
            k += 1;
        }
        proof {
            lemma_pool_concat(old(self).queue@, terminates::<J>(n as int));
            lemma_terminates::<J>(n as int);
        }
    }

    /// One worker takes the front message: a job is executed, a signal
    /// retires the worker.  No message is ever taken out of order.
    pub fn worker_step(&mut self)
        requires
            old(self).wf(),
            old(self).queue@.len() > 0,
        ensures
            final(self).queue@ == old(self).queue@.skip(1),
            match old(self).queue@[0] {
                PoolTask::Job(j) => final(self).executed@ == old(self).executed@.push(j)
                    && final(self).active == old(self).active,
                PoolTask::Terminate => final(self).executed@ == old(self).executed@
                    && final(self).active == old(self).active - 1,
            },
            final(self).wf(),
    {
        let t = self.queue.remove(0);
        proof {
            assert(self.queue@ =~= old(self).queue@.skip(1));
        }
        match t {
            PoolTask::Job(j) => {
                self.executed.push(j);
            },
            PoolTask::Terminate => {
                proof {
                    lemma_terms_nonneg(old(self).queue@.skip(1));
                    assert(terms_of(old(self).queue@) == 1 + terms_of(old(self).queue@.skip(1)));
                }
                self.active = self.active - 1;
            },
        }
    }

    /// Drain the queue: workers step until nothing is queued.  Every queued
    /// job is executed exactly once, in order, after the jobs ahead of it;
    /// every queued signal retires one worker.
    pub fn run_all(&mut self)
        requires
            old(self).wf(),
        ensures
            final(self).queue@ == Seq::<PoolTask<J>>::empty(),
            final(self).executed@ == old(self).executed@ + jobs_of(old(self).queue@),
            final(self).active == old(self).active - terms_of(old(self).queue@),
            final(self).wf(),
    {
        while self.queue.len() > 0
            invariant
                self.wf(),
                old(self).executed@ + jobs_of(old(self).queue@) =~= self.executed@ + jobs_of(
                    self.queue@,
                ),
                old(self).active - terms_of(old(self).queue@) == self.active - terms_of(
                    self.queue@,
                ),
            decreases self.queue@.len(),
        {
            let ghost q = self.queue@;
            let ghost ex = self.executed@;
            self.worker_step();
            proof {
                match q[0] {
                    PoolTask::Job(j) => {
                        assert(jobs_of(q) == seq![j] + jobs_of(q.skip(1)));
                        assert(ex + (seq![j] + jobs_of(q.skip(1))) =~= ex.push(j) + jobs_of(
                            q.skip(1),
                        ));
                    },
                    PoolTask::Terminate => {},
                }
            }
        }
        proof {
            assert(self.executed@ + jobs_of(self.queue@) =~= self.executed@);
        }
    }
}

/// How many workers a server runs by default: one more than the machine's
/// logical CPU count.
pub fn default_pool_size() -> (n: usize)
    ensures
        n >= 2,
{
    let c = cpu_count();
    if c < usize::MAX {
        c + 1
    } else {
        c
    }
}

/// Relies on num_cpus::get: the number of logical CPUs available to the
/// process, documented to always be at least 1.
#[verifier::external_body]
fn cpu_count() -> (n: usize)
    ensures
        1 <= n,
{
    num_cpus::get()
}

} // verus!
