//! The queue in front of the background worker.
//!
//! A single worker does the work, and the request slot holds exactly one
//! pending job: submitting a new one replaces whatever was waiting. That gives
//! coalescing for free, so dragging a slider across twenty values does not
//! queue twenty traces -- it runs the one in flight, then jumps straight to the
//! latest request.

use vstd::prelude::*;

verus! {

/// A job and the generation it was submitted as.
pub struct Ticket<J> {
    pub generation: u64,
    pub job: J,
}

/// The request slot.
pub struct Queue<J> {
    pub pending: Option<Ticket<J>>,
    /// Jobs submitted so far, which is the generation of the latest.
    pub submitted: u64,
    /// Whether a job is being worked on.
    pub running: bool,
}

impl<J> Queue<J> {
    /// Whatever waits is the latest job submitted.
    pub open spec fn wf(&self) -> bool {
        self.pending matches Some(t) ==> t.generation == self.submitted
    }

    pub fn new() -> (q: Queue<J>)
        ensures
            q.wf(),
            q.pending is None,
            q.submitted == 0,
            !q.running,
    {
        Queue { pending: None, submitted: 0, running: false }
    }

    /// Queue a job, replacing any job still waiting to start. Returns the
    /// generation number the caller should expect back.
    pub fn submit(&mut self, job: J) -> (generation: u64)
        requires
            old(self).submitted < u64::MAX,
        ensures
            generation == old(self).submitted + 1,
            final(self).submitted == generation,
            final(self).pending == Some(Ticket { generation, job }),
            final(self).running == old(self).running,
            final(self).wf(),
    {
        self.submitted = self.submitted + 1;
        self.pending = Some(Ticket { generation: self.submitted, job });
        self.submitted
    }

    /// Start on the waiting job, if there is one.
    pub fn start(&mut self) -> (t: Option<Ticket<J>>)
        ensures
            t == old(self).pending,
            final(self).pending is None,
            final(self).submitted == old(self).submitted,
            final(self).running == (old(self).running || t is Some),
            final(self).wf(),
    {
        let mut t: Option<Ticket<J>> = None;
        std::mem::swap(&mut t, &mut self.pending);
        if t.is_some() {
            self.running = true;
        }
        t
    }

    /// The job that was started is done.
    pub fn finish(&mut self)
        ensures
            !final(self).running,
            final(self).pending == old(self).pending,
            final(self).submitted == old(self).submitted,
            old(self).wf() ==> final(self).wf(),
    {
        self.running = false;
    }

    /// Whether a job is waiting or being worked on.
    pub fn is_busy(&self) -> (b: bool)
        ensures
            b == (self.running || self.pending is Some),
    {
        self.running || self.pending.is_some()
    }
}

// ---- Laws ---------------------------------------------------------------

/// What waits, and how many jobs were submitted, after submitting each of
/// `jobs` to a queue while nothing is started.
pub open spec fn after_submitting<J>(
    pending: Option<Ticket<J>>,
    submitted: nat,
    jobs: Seq<J>,
) -> (Option<Ticket<J>>, nat)
    decreases jobs.len(),
{
    if jobs.len() == 0 {
        (pending, submitted)
    } else {
        let n = after_submitting(pending, submitted, jobs.drop_last()).1 + 1;
        (Some(Ticket { generation: n as u64, job: jobs.last() }), n)
    }
}

/// However many jobs are submitted while the worker is occupied, only the last
/// of them waits, under a generation that counts all of them: the ones in
/// between are never started.
pub proof fn law_submissions_coalesce<J>(
    pending: Option<Ticket<J>>,
    submitted: nat,
    jobs: Seq<J>,
)
    requires
        jobs.len() > 0,
        submitted + jobs.len() <= u64::MAX,
    ensures
        after_submitting(pending, submitted, jobs).0 == Some(
            Ticket { generation: (submitted + jobs.len()) as u64, job: jobs.last() },
        ),
        after_submitting(pending, submitted, jobs).1 == submitted + jobs.len(),
    decreases jobs.len(),
{
    if jobs.len() > 1 {
        law_submissions_coalesce(pending, submitted, jobs.drop_last());
    } else {
        reveal_with_fuel(after_submitting, 2);
        assert(jobs.drop_last().len() == 0);
    }
}

} // verus!
