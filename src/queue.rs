use vstd::prelude::*;

verus! {

pub ghost struct JobModel {
    pub deployment_id: u128,
    pub service_id: u128,
    pub service_name: Seq<char>,
    pub data: Seq<u8>,
    pub will_run_tests: bool,
}

/// A build job handed to the build engine, which consumes it at most once.
#[derive(Debug)]
pub struct QueuedJob {
    pub deployment_id: u128,
    pub service_id: u128,
    pub service_name: String,
    pub data: Vec<u8>,
    pub will_run_tests: bool,
}

impl View for QueuedJob {
    type V = JobModel;

    open spec fn view(&self) -> JobModel {
        JobModel {
            deployment_id: self.deployment_id,
            service_id: self.service_id,
            service_name: self.service_name@,
            data: self.data@,
            will_run_tests: self.will_run_tests,
        }
    }
}

pub open spec fn views_of_jobs(s: Seq<QueuedJob>) -> Seq<JobModel> {
    s.map_values(|j: QueuedJob| j@)
}

pub open spec fn no_duplicates(s: Seq<u128>) -> bool {
    forall|i: int, j: int| 0 <= i < s.len() && 0 <= j < s.len() && s[i] == s[j] ==> i == j
}

/// The pending cancellations after asking to cancel `id`.
pub open spec fn after_cancel(c: Seq<u128>, id: u128) -> Seq<u128> {
    if c.contains(id) {
        c
    } else {
        c.push(id)
    }
}

/// What is handed to the build engine: jobs to build and run, and ids of
/// deployments to cancel. A cancellation that is already pending is not
/// issued a second time.
pub struct Queue {
    jobs: Vec<QueuedJob>,
    cancellations: Vec<u128>,
}

impl Queue {
    pub closed spec fn jobs(&self) -> Seq<JobModel> {
        views_of_jobs(self.jobs@)
    }

    pub closed spec fn cancellations(&self) -> Seq<u128> {
        self.cancellations@
    }

    pub open spec fn wf(&self) -> bool {
        no_duplicates(self.cancellations())
    }

    pub fn new() -> (r: Queue)
        ensures
            r.wf(),
            r.jobs().len() == 0,
            r.cancellations().len() == 0,
    {
        let r = Queue { jobs: Vec::new(), cancellations: Vec::new() };
        assert(r.jobs() =~= Seq::<JobModel>::empty());
        r
    }

    /// Hands a job to the build engine.
    pub fn queue_push(&mut self, job: QueuedJob)
        requires
            old(self).wf(),
        ensures
            final(self).wf(),
            final(self).jobs() == old(self).jobs().push(job@),
            final(self).cancellations() == old(self).cancellations(),
    {
        let ghost before = self.jobs();
        self.jobs.push(job);
        assert(self.jobs() =~= before.push(job@));
    }

    /// Asks the build engine to cancel deployment `id`.
    pub fn kill(&mut self, id: u128)
        requires
            old(self).wf(),
        ensures
            final(self).wf(),
            final(self).jobs() == old(self).jobs(),
            final(self).cancellations() == after_cancel(old(self).cancellations(), id),
    {
        let mut i: usize = 0;
        while i < self.cancellations.len()
            invariant
                *self == *old(self),
                old(self).wf(),
                0 <= i <= self.cancellations@.len(),
                forall|k: int| 0 <= k < i ==> self.cancellations@[k] != id,
            decreases self.cancellations@.len() - i,
        {
            if self.cancellations[i] == id {
                assert(old(self).cancellations()[i as int] == id);
                return;
            }
            i = i + 1;
        }
        self.cancellations.push(id);
    }

    /// Takes every pending job, oldest first, leaving none.
    pub fn take_jobs(&mut self) -> (r: Vec<QueuedJob>)
        requires
            old(self).wf(),
        ensures
            final(self).wf(),
            views_of_jobs(r@) == old(self).jobs(),
            final(self).jobs().len() == 0,
            final(self).cancellations() == old(self).cancellations(),
    {
        let mut r: Vec<QueuedJob> = Vec::new();
        std::mem::swap(&mut r, &mut self.jobs);
        assert(self.jobs() =~= Seq::<JobModel>::empty());
        r
    }

    /// Takes every pending cancellation, oldest first, leaving none.
    pub fn take_cancellations(&mut self) -> (r: Vec<u128>)
        requires
            old(self).wf(),
        ensures
            final(self).wf(),
            r@ == old(self).cancellations(),
            final(self).cancellations().len() == 0,
            final(self).jobs() == old(self).jobs(),
    {
        let mut r: Vec<u128> = Vec::new();
        std::mem::swap(&mut r, &mut self.cancellations);
        r
    }
}

} // verus!
