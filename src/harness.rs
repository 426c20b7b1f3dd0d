use vstd::prelude::*;

use crate::config::SchedulerConfig;
use crate::error::SchedulerError;
use crate::executor_info::{ExecutorData, ExecutorMetadata, ExecutorSpecification};
use crate::graph::{ShuffleWritePartition, StagePlan, TaskDescription, TaskOutcome, TaskStatus};
use crate::metrics::SchedulerMetricsCollector;
use crate::reservation::ExecutorReservation;
use crate::keyed::{has_key, keyed_map};
use crate::executor_manager::{reserved, ExecutorManager};
use crate::graph::valid_plan;
use crate::metrics::event_job;
use crate::scheduler::{
    distribution_of, fill_seq, jobs_advance, lemma_advance_keeps_ids, statuses_step, Job, JobStatus, JobTaskStatus,
    SchedulerServer, TaskAssignment,
};

verus! {

/// Runs tasks for a simulated executor: given the executor's id and a task, says how the
/// task ended.
pub struct TaskRunnerFn<F> {
    f: F,
}

impl<F: Fn(String, TaskDescription) -> TaskOutcome> TaskRunnerFn<F> {
    pub closed spec fn func(&self) -> F {
        self.f
    }

    pub fn new(f: F) -> (r: Self)
        ensures
            r.func() == f,
    {
        TaskRunnerFn { f }
    }

    /// Run `task` on executor `executor_id`.
    pub fn run(&self, executor_id: String, task: TaskDescription) -> (r: TaskOutcome)
        requires
            call_requires(self.func(), (executor_id, task)),
        ensures
            call_ensures(self.func(), (executor_id, task), r),
    {
        (self.f)(executor_id, task)
    }
}

/// How a task that always succeeds ends on executor `executor_id`: one output for each
/// output partition of the task (one when it has none), each with one batch, one row and
/// one byte, at an empty path.
pub fn default_task_outcome(executor_id: String, task: TaskDescription) -> (r: TaskOutcome)
    ensures
        r matches TaskOutcome::Successful { executor_id: e, host, outputs } && e == executor_id && outputs@.len() == (
        if task.output_partitions == 0 {
            1
        } else {
            task.output_partitions as int
        }) && forall|i: int|
            0 <= i < outputs@.len() ==> (#[trigger] outputs@[i]).partition_id == i && outputs@[i].path@.len() == 0
                && outputs@[i].num_batches == 1 && outputs@[i].num_rows == 1 && outputs@[i].num_bytes == 1,
{
    let n: u32 = if task.output_partitions == 0 {
        1
    } else {
        task.output_partitions
    };
    let mut outputs: Vec<ShuffleWritePartition> = Vec::new();
    let mut i: u32 = 0;
    while i < n
        invariant
            0 <= i <= n,
            outputs@.len() == i,
            forall|k: int|
                0 <= k < i ==> (#[trigger] outputs@[k]).partition_id == k && outputs@[k].path@.len() == 0
                    && outputs@[k].num_batches == 1 && outputs@[k].num_rows == 1 && outputs@[k].num_bytes == 1,
        decreases n - i,
    {
        outputs.push(
            ShuffleWritePartition { partition_id: i as u64, path: String::new(), num_batches: 1, num_rows: 1, num_bytes: 1 },
        );
        i = i + 1;
    }
    TaskOutcome::Successful { executor_id, host: String::new(), outputs }
}

/// A table whose scan always fails, so that planning a query over it fails.
#[derive(Debug)]
pub struct ExplodingTableProvider;

impl ExplodingTableProvider {
    /// Planning a scan of this table: always fails.
    pub fn scan(&self) -> (r: Result<Vec<StagePlan>, SchedulerError>)
        ensures
            r == Err::<Vec<StagePlan>, SchedulerError>(SchedulerError::InvalidPlan),
    {
        Err(SchedulerError::InvalidPlan)
    }
}

/// A scheduler with simulated executors that run the tasks handed to them at once,
/// driven one round at a time, all at time `now`.
pub struct SchedulerTest<M: SchedulerMetricsCollector> {
    scheduler: SchedulerServer<M>,
    now: u64,
}

impl<M: SchedulerMetricsCollector> SchedulerTest<M> {
    pub closed spec fn server(&self) -> SchedulerServer<M> {
        self.scheduler
    }

    pub closed spec fn wf(&self) -> bool {
        self.scheduler.wf()
    }

    /// The time at which the simulated cluster runs.
    pub closed spec fn now_view(&self) -> u64 {
        self.now
    }

    /// A scheduler with `config` and the executors `executors` (id and task slots), all
    /// registered with free slots and seen at `now`.
    pub fn new(config: SchedulerConfig, metrics: M, executors: Vec<(String, u32)>, now: u64) -> (r: Self)
        ensures
            r.wf(),
            r.server().jobs_view().len() == 0,
            r.server().policy() == config.scheduling_policy,
    {
        let mut scheduler = SchedulerServer::new("localhost:50050".to_owned(), config, metrics);
        let mut executors = executors;
        while executors.len() > 0
            invariant
                scheduler.wf(),
                scheduler.jobs_view().len() == 0,
                scheduler.policy() == config.scheduling_policy,
            decreases executors@.len(),
        {
            let (id, slots) = executors.remove(0);
            let metadata = ExecutorMetadata {
                id: id.clone(),
                host: String::new(),
                port: 0,
                grpc_port: 0,
                specification: ExecutorSpecification { task_slots: slots },
            };
            let data = ExecutorData { executor_id: id, total_task_slots: slots, available_task_slots: slots };
            let _ = scheduler.register_executor(metadata, data, false, now, true);
        }
        SchedulerTest { scheduler, now }
    }

    /// The scheduler under test.
    pub fn scheduler(&self) -> (r: &SchedulerServer<M>)
        ensures
            *r == self.server(),
    {
        &self.scheduler
    }

    /// Submit job `job_id` with the stages planning produced, or its planning error.
    pub fn submit(&mut self, job_id: &str, job_name: &str, plan: Result<Vec<StagePlan>, SchedulerError>) -> (r: Result<
        JobStatus,
        SchedulerError,
    >)
        requires
            old(self).wf(),
        ensures
            final(self).wf(),
            final(self).now_view() == old(self).now_view(),
            final(self).server().manager() == old(self).server().manager(),
            final(self).server().policy() == old(self).server().policy(),
            final(self).server().slots_policy() == old(self).server().slots_policy(),
            r is Err <==> has_key(old(self).server().jobs_view(), job_id@) && keyed_map(old(self).server().jobs_view())[job_id@].status
                != JobStatus::Queued,
            r matches Err(e) ==> e == SchedulerError::Conflict && final(self).server().jobs_view() == old(self).server().jobs_view()
                && final(self).server().events() == old(self).server().events(),
            r matches Ok(st) ==> {
                &&& st == (if plan is Ok && valid_plan(plan->Ok_0@) {
                    JobStatus::Running
                } else {
                    JobStatus::Failed
                })
                &&& keyed_map(final(self).server().jobs_view()).contains_key(job_id@)
                &&& keyed_map(final(self).server().jobs_view())[job_id@].status == st
                &&& final(self).server().events().drop_last() == old(self).server().events()
                &&& final(self).server().events().len() == old(self).server().events().len() + 1
                &&& event_job(final(self).server().events().last())@ == job_id@
                &&& (if st == JobStatus::Running {
                    final(self).server().events().last() is Submitted
                } else {
                    final(self).server().events().last() is Failed
                })
            },
    {
        let now = self.now;
        let r = self.scheduler.submit_job(job_id.to_owned(), job_name.to_owned(), plan, now, now);
        proof {
            if r is Ok {
                assert(self.scheduler.events().drop_last() =~= old(self).server().events());
            }
        }
        r
    }

    /// One round: every free slot is reserved and offered as `revive_offers` does, each task
    /// handed out runs on its executor through `runner`, and its status goes back to the
    /// scheduler, in order, together with the slot. Tells how many tasks ran.
    pub fn tick<F: Fn(String, TaskDescription) -> TaskOutcome>(&mut self, runner: &TaskRunnerFn<F>) -> (r: Result<
        usize,
        SchedulerError,
    >)
        requires
            old(self).wf(),
            forall|e: String, t: TaskDescription| call_requires(runner.func(), (e, t)),
        ensures
            final(self).wf(),
            final(self).now_view() == old(self).now_view(),
            final(self).server().policy() == old(self).server().policy(),
            final(self).server().slots_policy() == old(self).server().slots_policy(),
            jobs_advance(old(self).server().jobs_view(), final(self).server().jobs_view()),
            r matches Ok(n) ==> exists|
                m: ExecutorManager,
                rs: Seq<ExecutorReservation>,
                a: Seq<TaskAssignment>,
                u: Seq<ExecutorReservation>,
                j1: Seq<Job>,
                sts: Seq<JobTaskStatus>,
            |
                {
                    &&& #[trigger] reserved(
                        old(self).server().manager(),
                        m,
                        u32::MAX,
                        distribution_of(old(self).server().slots_policy()),
                        old(self).now_view(),
                        rs,
                    )
                    &&& #[trigger] fill_seq(old(self).server().jobs_view(), j1, rs, a, u)
                    &&& n == a.len()
                    &&& sts.len() == a.len()
                    &&& forall|i: int|
                        0 <= i < a.len() ==> (#[trigger] sts[i]).job_id == a[i].job_id && sts[i].status.stage
                            == a[i].task.stage && sts[i].status.partition == a[i].task.partition
                            && sts[i].status.task_id == a[i].task.task_id && call_ensures(
                            runner.func(),
                            (a[i].executor_id, a[i].task),
                            sts[i].status.outcome,
                        )
                    &&& #[trigger] statuses_step(
                        j1,
                        old(self).server().events(),
                        final(self).server().jobs_view(),
                        final(self).server().events(),
                        sts,
                        old(self).server().manager().metadata_map(),
                        old(self).now_view(),
                    )
                },
    {
        let now = self.now;
        let ghost j0 = self.scheduler.jobs_view();
        let ghost ev0 = self.scheduler.events();
        let ghost meta = self.scheduler.manager().metadata_map();
        let assignments = match self.scheduler.revive_offers(now) {
            Ok(a) => a,
            Err(e) => {
                return Err(e);
            },
        };
        let ghost (m, rs, a_all, u) = choose|
            m: ExecutorManager,
            rs: Seq<ExecutorReservation>,
            a: Seq<TaskAssignment>,
            u: Seq<ExecutorReservation>,
        |
            #[trigger] reserved(old(self).server().manager(), m, u32::MAX, distribution_of(old(self).server().slots_policy()), now, rs)
                && #[trigger] fill_seq(j0, self.scheduler.jobs_view(), rs, a, u) && a == assignments@ && self.scheduler.manager().ledger()
                == crate::executor_manager::after_cancel(m.ledger(), u);
        let ghost j1 = self.scheduler.jobs_view();
        let ran = assignments.len();
        let mut assignments = assignments;
        let ghost mut sts: Seq<JobTaskStatus> = Seq::empty();
        let ghost mut k: int = 0;
        proof {
            assert(a_all.take(0).len() == 0);
        }
        while assignments.len() > 0
            invariant
                self.scheduler.wf(),
                self.now == now,
                self.scheduler.policy() == old(self).server().policy(),
                self.scheduler.slots_policy() == old(self).server().slots_policy(),
                self.scheduler.manager().metadata_map() == meta,
                forall|e: String, t: TaskDescription| call_requires(runner.func(), (e, t)),
                jobs_advance(j0, self.scheduler.jobs_view()),
                0 <= k <= a_all.len(),
                assignments@ == a_all.skip(k),
                sts.len() == k,
                forall|i: int|
                    0 <= i < k ==> (#[trigger] sts[i]).job_id == a_all[i].job_id && sts[i].status.stage
                        == a_all[i].task.stage && sts[i].status.partition == a_all[i].task.partition
                        && sts[i].status.task_id == a_all[i].task.task_id && call_ensures(
                        runner.func(),
                        (a_all[i].executor_id, a_all[i].task),
                        sts[i].status.outcome,
                    ),
                statuses_step(j1, ev0, self.scheduler.jobs_view(), self.scheduler.events(), sts, meta, now),
            decreases assignments@.len(),
        {
            let a = assignments.remove(0);
            proof {
                assert(a == a_all[k]);
                assert(assignments@ =~= a_all.skip(k + 1));
            }
            let outcome = runner.run(a.executor_id.clone(), a.task);
            let status = TaskStatus { stage: a.task.stage, partition: a.task.partition, task_id: a.task.task_id, outcome };
            let executor_id = a.executor_id;
            let st = JobTaskStatus { job_id: a.job_id, status };
            let ghost st_g = st;
            let ghost before = self.scheduler.jobs_view();
            let ghost ev_before = self.scheduler.events();
            let mut batch: Vec<JobTaskStatus> = Vec::new();
            batch.push(st);
            proof {
                assert(batch@ =~= seq![st_g]);
            }
            self.scheduler.update_task_statuses(&executor_id, batch, now);
            proof {
                crate::scheduler::lemma_jobs_advance_trans(j0, before, self.scheduler.jobs_view());
                crate::scheduler::lemma_statuses_step_single(before, ev_before, self.scheduler.jobs_view(), self.scheduler.events(), st_g, meta, now);
                crate::scheduler::lemma_statuses_step_push(
                    j1,
                    ev0,
                    before,
                    ev_before,
                    self.scheduler.jobs_view(),
                    self.scheduler.events(),
                    sts,
                    st_g,
                    meta,
                    now,
                );
                sts = sts.push(st_g);
                k = k + 1;
            }
            let ghost before = self.scheduler.jobs_view();
            let _ = self.scheduler.release_slots(vec![ExecutorReservation::new_free(executor_id)]);
            proof {
                crate::scheduler::lemma_jobs_advance_trans(j0, before, self.scheduler.jobs_view());
            }
        }
        proof {
            assert(k == a_all.len());
        }
        Ok(ran)
    }

    /// Submit job `job_id` and run rounds until it finishes, no task runs in a round, or
    /// `max_rounds` rounds ran. Returns where the job then stands.
    pub fn run<F: Fn(String, TaskDescription) -> TaskOutcome>(
        &mut self,
        job_id: &str,
        job_name: &str,
        plan: Result<Vec<StagePlan>, SchedulerError>,
        runner: &TaskRunnerFn<F>,
        max_rounds: u32,
    ) -> (r: Result<JobStatus, SchedulerError>)
        requires
            old(self).wf(),
            forall|e: String, t: TaskDescription| call_requires(runner.func(), (e, t)),
        ensures
            final(self).wf(),
            r is Ok <==> !(has_key(old(self).server().jobs_view(), job_id@) && keyed_map(old(self).server().jobs_view())[job_id@].status
                != JobStatus::Queued),
            r matches Ok(s) ==> keyed_map(final(self).server().jobs_view()).contains_key(job_id@) && keyed_map(
                final(self).server().jobs_view(),
            )[job_id@].status == s,
            r is Ok && !(plan is Ok && valid_plan(plan->Ok_0@)) ==> r->Ok_0 == JobStatus::Failed
                && final(self).server().events().drop_last() == old(self).server().events()
                && final(self).server().events().last() is Failed && event_job(final(self).server().events().last())@ == job_id@,
    {
        let ghost planned = plan is Ok && valid_plan(plan->Ok_0@);
        let ghost ev0 = self.scheduler.events();
        let first = match self.submit(job_id, job_name, plan) {
            Ok(s) => s,
            Err(e) => {
                return Err(e);
            },
        };
        let id = job_id.to_owned();
        let mut status = first;
        let mut round: u32 = 0;
        while round < max_rounds && status == JobStatus::Running
            invariant
                self.wf(),
                id@ == job_id@,
                forall|e: String, t: TaskDescription| call_requires(runner.func(), (e, t)),
                keyed_map(self.server().jobs_view()).contains_key(job_id@) && keyed_map(self.server().jobs_view())[job_id@].status
                    == status,
                !(has_key(old(self).server().jobs_view(), job_id@) && keyed_map(old(self).server().jobs_view())[job_id@].status
                    != JobStatus::Queued),
                planned == (plan is Ok && valid_plan(plan->Ok_0@)),
                !planned ==> status == JobStatus::Failed && self.server().events().drop_last() == old(self).server().events()
                    && self.server().events().last() is Failed && event_job(self.server().events().last())@ == job_id@,
            decreases max_rounds - round,
        {
            let ghost before = self.scheduler.jobs_view();
            let ticked = self.tick(runner);
            proof {
                lemma_advance_keeps_ids(before, self.scheduler.jobs_view(), job_id@);
            }
            status = match self.scheduler.get_job_status(&id) {
                Some(s) => s,
                None => {
                    return Ok(status);
                },
            };
            match ticked {
                Ok(ran) => {
                    if ran == 0 {
                        return Ok(status);
                    }
                },
                Err(_) => {
                    return Ok(status);
                },
            }
            round = round + 1;
        }
        Ok(status)
    }
    /// Cancel job `job_id`; tells whether it was running.
    pub fn cancel(&mut self, job_id: &str) -> (r: bool)
        requires
            old(self).wf(),
        ensures
            final(self).wf(),
            r ==> keyed_map(final(self).server().jobs_view()).contains_key(job_id@) && keyed_map(
                final(self).server().jobs_view(),
            )[job_id@].status == JobStatus::Cancelled,
    {
        let id = job_id.to_owned();
        self.scheduler.cancel_job(&id)
    }

    /// Where job `job_id` stands; None for a job never submitted.
    pub fn job_status(&self, job_id: &str) -> (r: Option<JobStatus>)
        requires
            self.wf(),
        ensures
            r == if keyed_map(self.server().jobs_view()).contains_key(job_id@) {
                Some(keyed_map(self.server().jobs_view())[job_id@].status)
            } else {
                None::<JobStatus>
            },
    {
        let id = job_id.to_owned();
        self.scheduler.get_job_status(&id)
    }
}

} // verus!
