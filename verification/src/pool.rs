//! The shared state of the worker pool: a first-in, first-out queue of
//! pending jobs. The listener pushes a job per accepted connection;
//! workers take jobs one at a time. Taking removes the job, so no job is
//! ever handed to two workers.

use vstd::prelude::*;

verus! {

/// A first-in, first-out queue of pending jobs.
pub struct JobQueue<J> {
    pending: Vec<J>,
}

impl<J> JobQueue<J> {
    /// The pending jobs, oldest first.
    pub closed spec fn jobs(&self) -> Seq<J> {
        self.pending@
    }

    /// An empty queue.
    pub fn new() -> (q: JobQueue<J>)
        ensures
            q.jobs() == Seq::<J>::empty(),
    {
        JobQueue { pending: Vec::new() }
    }

    /// How many jobs wait.
    pub fn len(&self) -> (r: usize)
        ensures
            r == self.jobs().len(),
    {
        self.pending.len()
    }

    /// Enqueues a job behind every job already waiting.
    pub fn push_job(&mut self, job: J)
        ensures
            final(self).jobs() == old(self).jobs().push(job),
    {
        self.pending.push(job);
    }

    /// Takes the oldest pending job out of the queue. The job leaves the
    /// queue with this call, so it can never be taken again.
    pub fn take_job(&mut self) -> (r: Option<J>)
        ensures
            old(self).jobs().len() == 0 ==> r is None && final(self).jobs() == old(self).jobs(),
            old(self).jobs().len() > 0 ==> (r matches Some(j) && j == old(self).jobs()[0]
                && final(self).jobs() == old(self).jobs().drop_first()),
    {
        if self.pending.len() == 0 {
            None
        } else {
            let j = self.pending.remove(0);
            proof {
                assert(self.pending@ =~= old(self).pending@.drop_first());
            }
            Some(j)
        }
    }
}

/// What a queue hands out when drained job by job: the oldest, then what
/// draining the rest hands out.
pub open spec fn drained<J>(jobs: Seq<J>) -> Seq<J>
    decreases jobs.len(),
{
    if jobs.len() == 0 {
        Seq::empty()
    } else {
        seq![jobs[0]] + drained(jobs.drop_first())
    }
}

/// Submitted jobs are handed out exactly once each, in submission order:
/// draining a queue returns precisely the submitted sequence, so no job
/// is handed out twice and none is dropped, however many workers take
/// turns, since `take_job` removes what it returns.
pub proof fn lemma_jobs_exactly_once<J>(submitted: Seq<J>)
    ensures
        drained(submitted) == submitted,
        drained(submitted).to_multiset() == submitted.to_multiset(),
    decreases submitted.len(),
{
    if submitted.len() == 0 {
        assert(drained(submitted) =~= submitted);
    } else {
        lemma_jobs_exactly_once(submitted.drop_first());
        assert(drained(submitted) =~= submitted);
    }
}

} // verus!
