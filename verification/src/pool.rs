//! Bookkeeping of the thread pool.
//!
//! The pool's plumbing — OS threads, the job channel, the locks and the
//! condition variable — lives with the caller, outside this library.
//! Here is the state that disciplines that plumbing: the counters that
//! say when `join` may return, and the sentinel whose firing rule keeps
//! the pool's size self-healing when a worker dies mid-job.

use vstd::prelude::*;

verus! {

/// The state shared by all workers of one pool: how many jobs wait in
/// the queue, how many are being run, how many workers are alive, and
/// the epoch that lets concurrent joiners take turns.
pub struct Context {
    queued: u64,
    active: u64,
    workers: u64,
    join_generation: u64,
}

impl Context {
    /// Jobs waiting in the queue.
    pub closed spec fn spec_queued(&self) -> u64 {
        self.queued
    }

    /// Jobs being run by some worker.
    pub closed spec fn spec_active(&self) -> u64 {
        self.active
    }

    /// Workers alive.
    pub closed spec fn spec_workers(&self) -> u64 {
        self.workers
    }

    /// The join epoch.
    pub closed spec fn spec_join_generation(&self) -> u64 {
        self.join_generation
    }

    /// A fresh context for a pool of `workers` workers: no job queued,
    /// none running.
    pub fn new(workers: u64) -> (r: Context)
        ensures
            r.spec_queued() == 0,
            r.spec_active() == 0,
            r.spec_workers() == workers,
            r.spec_join_generation() == 0,
    {
        Context { queued: 0, active: 0, workers, join_generation: 0 }
    }

    /// How many workers are alive.
    pub fn workers(&self) -> (r: u64)
        ensures
            r == self.spec_workers(),
    {
        self.workers
    }

    /// Whether any job is queued or running: while this holds, `join`
    /// keeps waiting.
    pub fn has_work(&self) -> (r: bool)
        ensures
            r == (self.spec_queued() > 0 || self.spec_active() > 0),
    {
        self.queued > 0 || self.active > 0
    }

    /// Whether a finished job must wake the joiners: exactly when no
    /// work is left.
    pub fn join_notify_all(&self) -> (r: bool)
        ensures
            r == !(self.spec_queued() > 0 || self.spec_active() > 0),
    {
        !self.has_work()
    }

    /// A job entered the queue.
    pub fn job_queued(&mut self)
        requires
            old(self).spec_queued() < u64::MAX,
        ensures
            final(self).spec_queued() == old(self).spec_queued() + 1,
            final(self).spec_active() == old(self).spec_active(),
            final(self).spec_workers() == old(self).spec_workers(),
            final(self).spec_join_generation() == old(self).spec_join_generation(),
    {
        self.queued = self.queued + 1;
    }

    /// A worker took a job from the queue and started running it.
    pub fn job_started(&mut self)
        requires
            old(self).spec_queued() > 0,
            old(self).spec_active() < u64::MAX,
        ensures
            final(self).spec_queued() == old(self).spec_queued() - 1,
            final(self).spec_active() == old(self).spec_active() + 1,
            final(self).spec_workers() == old(self).spec_workers(),
            final(self).spec_join_generation() == old(self).spec_join_generation(),
    {
        self.queued = self.queued - 1;
        self.active = self.active + 1;
    }

    /// A worker finished its job cleanly.
    pub fn job_finished(&mut self)
        requires
            old(self).spec_active() > 0,
        ensures
            final(self).spec_queued() == old(self).spec_queued(),
            final(self).spec_active() == old(self).spec_active() - 1,
            final(self).spec_workers() == old(self).spec_workers(),
            final(self).spec_join_generation() == old(self).spec_join_generation(),
    {
        self.active = self.active - 1;
    }

    /// A joiner observed the pool idle and closed its epoch, so that
    /// later joiners wait on a fresh one.  The counters are untouched.
    pub fn join_epoch_closed(&mut self)
        ensures
            final(self).spec_queued() == old(self).spec_queued(),
            final(self).spec_active() == old(self).spec_active(),
            final(self).spec_workers() == old(self).spec_workers(),
    {
        self.join_generation = self.join_generation.wrapping_add(1);
    }
}

/// A scoped guard a worker arms on entry and disarms just before a
/// clean exit.  When the worker unwinds out of a panicking job instead,
/// the guard is still armed, and its firing rule replaces the worker.
pub struct Sentinel {
    active: bool,
}

impl Sentinel {
    /// A fresh, armed sentinel.
    pub fn new() -> (r: Sentinel)
        ensures
            r.spec_active(),
    {
        Sentinel { active: true }
    }

    /// Whether the sentinel is still armed.
    pub closed spec fn spec_active(&self) -> bool {
        self.active
    }

    /// Disarm the sentinel: the worker is exiting cleanly.
    pub fn stop(&mut self)
        ensures
            !final(self).spec_active(),
    {
        self.active = false;
    }

    /// What the sentinel does as its worker exits.  Disarmed — a clean
    /// exit at shutdown — the pool just shrinks by that worker.  Armed —
    /// the worker died inside a job — the interrupted job is retired and
    /// a replacement worker enters, so the pool's size is unchanged:
    /// the self-healing rule.
    pub fn fire(self, ctx: &mut Context) -> (respawn: bool)
        requires
            old(ctx).spec_workers() > 0,
            self.spec_active() ==> old(ctx).spec_active() > 0,
        ensures
            respawn == self.spec_active(),
            final(ctx).spec_queued() == old(ctx).spec_queued(),
            !self.spec_active() ==> final(ctx).spec_workers() == old(ctx).spec_workers() - 1
                && final(ctx).spec_active() == old(ctx).spec_active(),
            self.spec_active() ==> final(ctx).spec_workers() == old(ctx).spec_workers()
                && final(ctx).spec_active() == old(ctx).spec_active() - 1,
    {
        ctx.workers = ctx.workers - 1;
        if self.active {
            ctx.job_finished();
            // the replacement worker enters: one for one
            ctx.workers = ctx.workers + 1;
            true
        } else {
            false
        }
    }
}

/// A thread pool that keeps a fixed number of workers draining one
/// shared job queue.  This type carries the pool's bookkeeping; the
/// caller runs the matching threads and reports their events here.
pub struct ThreadPool {
    threads: u32,
    context: Context,
}

impl ThreadPool {
    /// How many workers the pool was built with.
    pub closed spec fn spec_threads(&self) -> u32 {
        self.threads
    }

    /// The shared bookkeeping state.
    pub closed spec fn spec_context(&self) -> Context {
        self.context
    }

    /// A pool of `threads` workers with an empty queue.
    pub fn new(threads: u32) -> (r: ThreadPool)
        ensures
            r.spec_threads() == threads,
            r.spec_context().spec_queued() == 0,
            r.spec_context().spec_active() == 0,
            r.spec_context().spec_workers() == threads as u64,
    {
        ThreadPool { threads, context: Context::new(threads as u64) }
    }

    /// Queue a job for execution by some worker.
    pub fn exec(&mut self)
        requires
            old(self).spec_context().spec_queued() < u64::MAX,
        ensures
            final(self).spec_threads() == old(self).spec_threads(),
            final(self).spec_context().spec_queued() == old(self).spec_context().spec_queued() + 1,
            final(self).spec_context().spec_active() == old(self).spec_context().spec_active(),
            final(self).spec_context().spec_workers() == old(self).spec_context().spec_workers(),
    {
        self.context.job_queued();
    }

    /// Whether a caller waiting for the pool to drain may return: true
    /// exactly when no job is queued or running.
    pub fn join(&self) -> (r: bool)
        ensures
            r == !(self.spec_context().spec_queued() > 0 || self.spec_context().spec_active() > 0),
    {
        !self.context.has_work()
    }

    /// Report that a worker took a queued job.
    pub fn job_started(&mut self)
        requires
            old(self).spec_context().spec_queued() > 0,
            old(self).spec_context().spec_active() < u64::MAX,
        ensures
            final(self).spec_threads() == old(self).spec_threads(),
            final(self).spec_context().spec_queued() == old(self).spec_context().spec_queued() - 1,
            final(self).spec_context().spec_active() == old(self).spec_context().spec_active() + 1,
            final(self).spec_context().spec_workers() == old(self).spec_context().spec_workers(),
    {
        self.context.job_started();
    }

    /// Report that a worker finished a job cleanly.
    pub fn job_finished(&mut self)
        requires
            old(self).spec_context().spec_active() > 0,
        ensures
            final(self).spec_threads() == old(self).spec_threads(),
            final(self).spec_context().spec_queued() == old(self).spec_context().spec_queued(),
            final(self).spec_context().spec_active() == old(self).spec_context().spec_active() - 1,
            final(self).spec_context().spec_workers() == old(self).spec_context().spec_workers(),
    {
        self.context.job_finished();
    }
}

} // verus!
