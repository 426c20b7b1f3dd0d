use vstd::prelude::*;

verus! {

/// A task slot that has been taken out of an executor's pool of free slots.
/// Holding one entitles its owner to dispatch exactly one task to that executor.
/// A reservation may already be assigned to a job, in which case tasks of that
/// job are preferred when the slot is filled.
#[derive(Debug, PartialEq, Eq)]
pub struct ExecutorReservation {
    pub executor_id: String,
    pub job_id: Option<String>,
}

impl Clone for ExecutorReservation {
    fn clone(&self) -> (r: Self)
        ensures
            r == *self,
    {
        let job_id = match &self.job_id {
            Some(j) => Some(j.clone()),
            None => None,
        };
        ExecutorReservation { executor_id: self.executor_id.clone(), job_id }
    }
}

impl ExecutorReservation {
    /// A reservation on `executor_id` that belongs to no job yet.
    pub fn new_free(executor_id: String) -> (r: Self)
        ensures
            r.executor_id == executor_id,
            r.job_id.is_none(),
    {
        Self { executor_id, job_id: None }
    }

    /// A reservation on `executor_id` that is already assigned to `job_id`.
    pub fn new_assigned(executor_id: String, job_id: String) -> (r: Self)
        ensures
            r.executor_id == executor_id,
            r.job_id == Some(job_id),
    {
        Self { executor_id, job_id: Some(job_id) }
    }

    /// The same reservation, assigned to `job_id`.
    pub fn assign(self, job_id: String) -> (r: Self)
        ensures
            r.executor_id == self.executor_id,
            r.job_id == Some(job_id),
    {
        let mut this = self;
        this.job_id = Some(job_id);
        this
    }

    /// Whether the reservation is assigned to a job.
    pub fn assigned(&self) -> (r: bool)
        ensures
            r == self.job_id.is_some(),
    {
        self.job_id.is_some()
    }
}

} // verus!
