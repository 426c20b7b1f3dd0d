use vstd::prelude::*;

verus! {

/// A job lifecycle event, with the job id and its timestamps in milliseconds.
#[derive(Debug, PartialEq, Eq)]
pub enum MetricEvent {
    /// Planned and submitted: queued at, submitted at.
    Submitted(String, u64, u64),
    /// Finished successfully: queued at, completed at.
    Completed(String, u64, u64),
    /// Cancelled.
    Cancelled(String),
    /// Failed: queued at, failed at.
    Failed(String, u64, u64),
}

pub open spec fn event_job(e: MetricEvent) -> String {
    match e {
        MetricEvent::Submitted(job, _, _) => job,
        MetricEvent::Completed(job, _, _) => job,
        MetricEvent::Cancelled(job) => job,
        MetricEvent::Failed(job, _, _) => job,
    }
}

impl Clone for MetricEvent {
    fn clone(&self) -> (r: Self)
        ensures
            r == *self,
    {
        match self {
            MetricEvent::Submitted(job, a, b) => MetricEvent::Submitted(job.clone(), *a, *b),
            MetricEvent::Completed(job, a, b) => MetricEvent::Completed(job.clone(), *a, *b),
            MetricEvent::Cancelled(job) => MetricEvent::Cancelled(job.clone()),
            MetricEvent::Failed(job, a, b) => MetricEvent::Failed(job.clone(), *a, *b),
        }
    }
}

impl MetricEvent {
    fn job(&self) -> (r: &String)
        ensures
            *r == event_job(*self),
    {
        match self {
            MetricEvent::Submitted(job, _, _) => job,
            MetricEvent::Completed(job, _, _) => job,
            MetricEvent::Cancelled(job) => job,
            MetricEvent::Failed(job, _, _) => job,
        }
    }

    /// The job the event is about.
    pub fn job_id(&self) -> (r: &str)
        ensures
            r@ == event_job(*self)@,
    {
        match self {
            MetricEvent::Submitted(job, _, _) => job.as_str(),
            MetricEvent::Completed(job, _, _) => job.as_str(),
            MetricEvent::Cancelled(job) => job.as_str(),
            MetricEvent::Failed(job, _, _) => job.as_str(),
        }
    }
}

/// Where the scheduler records job lifecycle events.
pub trait SchedulerMetricsCollector {
    fn record_submitted(&mut self, job_id: &str, queued_at: u64, submitted_at: u64);

    fn record_completed(&mut self, job_id: &str, queued_at: u64, completed_at: u64);

    fn record_failed(&mut self, job_id: &str, queued_at: u64, failed_at: u64);

    fn record_cancelled(&mut self, job_id: &str);

    fn set_pending_tasks_queue_size(&mut self, value: u64);
}

/// A collector that keeps every event, in the order recorded.
#[derive(Debug)]
pub struct TestMetricsCollector {
    pub events: Vec<MetricEvent>,
}

impl TestMetricsCollector {
    pub fn new() -> (r: Self)
        ensures
            r.events@.len() == 0,
    {
        TestMetricsCollector { events: Vec::new() }
    }

    /// The events about `job_id`, in the order recorded.
    pub fn job_events(&self, job_id: &str) -> (r: Vec<MetricEvent>)
        ensures
            r@ == self.events@.filter(|e: MetricEvent| event_job(e)@ == job_id@),
    {
        let ghost keep = |e: MetricEvent| event_job(e)@ == job_id@;
        let wanted = job_id.to_owned();
        let mut out: Vec<MetricEvent> = Vec::new();
        let mut i: usize = 0;
        while i < self.events.len()
            invariant
                0 <= i <= self.events@.len(),
                keep == (|e: MetricEvent| event_job(e)@ == job_id@),
                wanted@ == job_id@,
                out@ == self.events@.take(i as int).filter(keep),
            decreases self.events@.len() - i,
        {
            let ghost prefix = self.events@.take(i as int + 1);
            proof {
                assert(prefix.drop_last() =~= self.events@.take(i as int));
                assert(prefix.last() == self.events@[i as int]);
                reveal(Seq::filter);
            }
            if self.events[i].job().eq(&wanted) {
                out.push(self.events[i].clone());
            }
            i = i + 1;
        }
        proof {
            assert(self.events@.take(self.events@.len() as int) =~= self.events@);
        }
        out
    }
}

impl SchedulerMetricsCollector for TestMetricsCollector {
    fn record_submitted(&mut self, job_id: &str, queued_at: u64, submitted_at: u64) {
        self.events.push(MetricEvent::Submitted(job_id.to_owned(), queued_at, submitted_at));
    }

    fn record_completed(&mut self, job_id: &str, queued_at: u64, completed_at: u64) {
        self.events.push(MetricEvent::Completed(job_id.to_owned(), queued_at, completed_at));
    }

    fn record_failed(&mut self, job_id: &str, queued_at: u64, failed_at: u64) {
        self.events.push(MetricEvent::Failed(job_id.to_owned(), queued_at, failed_at));
    }

    fn record_cancelled(&mut self, job_id: &str) {
        self.events.push(MetricEvent::Cancelled(job_id.to_owned()));
    }

    fn set_pending_tasks_queue_size(&mut self, _value: u64) {
    }
}

} // verus!
