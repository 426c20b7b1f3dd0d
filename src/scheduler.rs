use vstd::prelude::*;

use crate::config::{SchedulerConfig, SlotsPolicy, TaskSchedulingPolicy};
use crate::error::SchedulerError;
use crate::executor::ExecutorRegistration;
use crate::executor_info::{ExecutorData, ExecutorHeartbeat, ExecutorMetadata, ExecutorState};
use crate::executor_manager::{ExecutorManager, DEFAULT_EXECUTOR_TIMEOUT_SECONDS};
use crate::graph::{
    keeps_completed, offers_task, popped, status_applied, valid_plan, ExecutionGraph, GraphStatus, StagePlan, StatusEffect, TaskDescription,
    TaskOutcome, TaskStatus,
};
use crate::keyed::{find_key, has_key, index_of, keyed_map, upsert_seq, lemma_keyed_at, lemma_keyed_key, unique_keys, Keyed};
use crate::metrics::{MetricEvent, SchedulerMetricsCollector};
use crate::reservation::ExecutorReservation;
use crate::slots::{count_for, TaskDistribution};

verus! {

/// Where a job stands, as clients see it.
#[derive(Debug, Clone, Copy, PartialEq, Eq, Structural)]
pub enum JobStatus {
    Queued,
    Running,
    Successful,
    Failed,
    Cancelled,
}

pub open spec fn job_finished(s: JobStatus) -> bool {
    s == JobStatus::Successful || s == JobStatus::Failed || s == JobStatus::Cancelled
}

pub open spec fn status_of(g: GraphStatus) -> JobStatus {
    match g {
        GraphStatus::Running => JobStatus::Running,
        GraphStatus::Successful => JobStatus::Successful,
        GraphStatus::Failed => JobStatus::Failed,
        GraphStatus::Cancelled => JobStatus::Cancelled,
    }
}

fn job_status_of(g: GraphStatus) -> (r: JobStatus)
    ensures
        r == status_of(g),
{
    match g {
        GraphStatus::Running => JobStatus::Running,
        GraphStatus::Successful => JobStatus::Successful,
        GraphStatus::Failed => JobStatus::Failed,
        GraphStatus::Cancelled => JobStatus::Cancelled,
    }
}

/// A job the scheduler accepted: its graph once planned, and its status.
pub struct Job {
    pub job_id: String,
    pub job_name: String,
    pub queued_at: u64,
    pub status: JobStatus,
    pub graph: Option<ExecutionGraph>,
}

impl Keyed for Job {
    open spec fn key(&self) -> Seq<char> {
        self.job_id@
    }

    fn key_ref(&self) -> (r: &String) {
        &self.job_id
    }
}

/// The job is consistent: its status is its graph's, or it has no graph because it waits to
/// be planned, failed to be, or was cancelled before.
pub open spec fn job_ok(j: Job) -> bool {
    match j.graph {
        Some(g) => g.wf() && j.status == status_of(g.status_view()),
        None => j.status == JobStatus::Queued || j.status == JobStatus::Failed || j.status == JobStatus::Cancelled,
    }
}

/// Each job of `old` is still there, a finished one as it finished, and no complete task
/// of any graph changed.
pub open spec fn jobs_advance(old: Seq<Job>, new: Seq<Job>) -> bool {
    old.len() == new.len() && forall|i: int|
        0 <= i < old.len() ==> {
            &&& (#[trigger] new[i]).job_id == old[i].job_id
            &&& new[i].queued_at == old[i].queued_at
            &&& (job_finished(old[i].status) ==> new[i].status == old[i].status)
            &&& old[i].graph is Some <==> new[i].graph is Some
            &&& old[i].graph is Some ==> keeps_completed(
                old[i].graph->Some_0.tasks_view(),
                new[i].graph->Some_0.tasks_view(),
            )
        }
}

pub proof fn lemma_jobs_advance_trans(a: Seq<Job>, b: Seq<Job>, c: Seq<Job>)
    requires
        jobs_advance(a, b),
        jobs_advance(b, c),
    ensures
        jobs_advance(a, c),
{
    assert forall|i: int| 0 <= i < a.len() implies {
        &&& (#[trigger] c[i]).job_id == a[i].job_id
        &&& c[i].queued_at == a[i].queued_at
        &&& (job_finished(a[i].status) ==> c[i].status == a[i].status)
        &&& a[i].graph is Some <==> c[i].graph is Some
        &&& a[i].graph is Some ==> keeps_completed(a[i].graph->Some_0.tasks_view(), c[i].graph->Some_0.tasks_view())
    } by {
        assert(b[i].job_id == a[i].job_id);
        if a[i].graph is Some {
            let ta = a[i].graph->Some_0.tasks_view();
            let tb = b[i].graph->Some_0.tasks_view();
            let tc = c[i].graph->Some_0.tasks_view();
            assert forall|k: int| 0 <= k < ta.len() implies (#[trigger] tc[k]).stage == ta[k].stage
                && tc[k].partition == ta[k].partition && (ta[k].state is Completed ==> tc[k] == ta[k]) by {
                assert(tb[k].stage == ta[k].stage);
                assert(tc[k].stage == tb[k].stage);
            }
        }
    }
}

/// Taking a task leaves every job as `jobs_advance` allows.
pub proof fn lemma_took_advances(
    jobs: Seq<Job>,
    jobs2: Seq<Job>,
    e: String,
    preferred: Option<String>,
    a: TaskAssignment,
    i: int,
    g2: ExecutionGraph,
)
    requires
        took_from(jobs, jobs2, e, preferred, a, i, g2),
        job_ok(jobs[i]),
    ensures
        jobs_advance(jobs, jobs2),
{
    reveal(took_from);
    assert forall|q: int| 0 <= q < jobs.len() && q != i implies #[trigger] jobs2[q] == jobs[q] by {}
}

pub proof fn lemma_statuses_step_push(
    jobs: Seq<Job>,
    ev: Seq<MetricEvent>,
    jm: Seq<Job>,
    em: Seq<MetricEvent>,
    jobs2: Seq<Job>,
    ev2: Seq<MetricEvent>,
    sts: Seq<JobTaskStatus>,
    x: JobTaskStatus,
    meta: Map<Seq<char>, ExecutorMetadata>,
    now: u64,
)
    requires
        statuses_step(jobs, ev, jm, em, sts, meta, now),
        status_step(jm, em, jobs2, ev2, x, meta, now),
    ensures
        statuses_step(jobs, ev, jobs2, ev2, sts.push(x), meta, now),
{
    let t = sts.push(x);
    assert(t.drop_last() =~= sts);
    assert(t.last() == x);
    assert(t.len() > 0);
    assert(statuses_step(jobs, ev, jm, em, t.drop_last(), meta, now));
    assert(status_step(jm, em, jobs2, ev2, t.last(), meta, now));
    assert(statuses_step(jobs, ev, jobs2, ev2, t, meta, now)) by {
        reveal_with_fuel(statuses_step, 2);
        assert(statuses_step(jobs, ev, jm, em, t.drop_last(), meta, now) && status_step(jm, em, jobs2, ev2, t.last(), meta, now));
    }
}

/// A task handed to an executor, with the job it belongs to.
#[derive(Debug, PartialEq, Eq)]
pub struct TaskAssignment {
    pub executor_id: String,
    pub job_id: String,
    pub task: TaskDescription,
}

/// Some reservation of `rs` is on executor `id`.
pub open spec fn reserved_on(rs: Seq<ExecutorReservation>, id: Seq<char>) -> bool {
    exists|k: int| 0 <= k < rs.len() && (#[trigger] rs[k]).executor_id@ == id
}

/// A task status, with the job it belongs to.
#[derive(Debug)]
pub struct JobTaskStatus {
    pub job_id: String,
    pub status: TaskStatus,
}

/// One configuration setting of a session.
#[derive(Debug, PartialEq, Eq)]
pub struct KeyValuePair {
    pub key: String,
    pub value: String,
}

/// A saved session: its id and the settings it was given last.
#[derive(Debug)]
pub struct Session {
    pub session_id: String,
    pub settings: Vec<KeyValuePair>,
}

impl Keyed for Session {
    open spec fn key(&self) -> Seq<char> {
        self.session_id@
    }

    fn key_ref(&self) -> (r: &String) {
        &self.session_id
    }
}

/// What a client asks to run: an encoded logical plan, or SQL text.
#[derive(Debug)]
pub enum Query {
    LogicalPlan(Vec<u8>),
    Sql(String),
}

/// A client's request: a query (or none, to open a session), its settings, and optionally
/// the session and the job id to use.
#[derive(Debug)]
pub struct ExecuteQueryParams {
    pub query: Option<Query>,
    pub settings: Vec<KeyValuePair>,
    pub optional_session_id: Option<String>,
    pub optional_job_id: Option<String>,
}

/// Kinds of files whose schema a client may ask for.
#[derive(Debug, Clone, Copy, PartialEq, Eq, Structural)]
pub enum FileType {
    Parquet,
    Csv,
    Json,
}

/// The file formats the scheduler reads schemas of.
#[derive(Debug, Clone, Copy, PartialEq, Eq, Structural)]
pub enum FileFormat {
    Parquet,
}

/// The format to read a file of type `file_type` with; `Unimplemented` for any but Parquet.
pub fn file_format_for(file_type: FileType) -> (r: Result<FileFormat, SchedulerError>)
    ensures
        r == if file_type == FileType::Parquet {
            Ok::<FileFormat, SchedulerError>(FileFormat::Parquet)
        } else {
            Err(SchedulerError::Unimplemented)
        },
{
    match file_type {
        FileType::Parquet => Ok(FileFormat::Parquet),
        _ => Err(SchedulerError::Unimplemented),
    }
}

/// Starts the tasks handed to an executor; implemented by whatever reaches the executors.
pub trait TaskLauncher {
    fn launch_tasks(&self, executor: &ExecutorMetadata, tasks: Vec<TaskAssignment>) -> Result<(), SchedulerError>;
}

/// A launcher that accepts every task and never starts any.
#[derive(Debug, Default)]
pub struct BlackholeTaskLauncher {}

impl TaskLauncher for BlackholeTaskLauncher {
    fn launch_tasks(&self, executor: &ExecutorMetadata, tasks: Vec<TaskAssignment>) -> (r: Result<(), SchedulerError>) {
        Ok(())
    }
}

/// The job after its graph became `g`; its status follows the graph.
pub open spec fn with_graph(j: Job, g: ExecutionGraph) -> Job {
    Job { job_id: j.job_id, job_name: j.job_name, queued_at: j.queued_at, status: status_of(g.status_view()), graph: Some(g) }
}

/// The job has a graph that offers a task.
pub open spec fn job_offers(j: Job) -> bool {
    j.graph is Some && offers_task(j.graph->Some_0)
}

/// Job `i` is the one a task is taken from: it offers one, and it is the job `preferred`
/// names when that one offers a task, else the first job that does.
pub open spec fn first_offering(jobs: Seq<Job>, preferred: Option<String>, i: int) -> bool {
    &&& 0 <= i < jobs.len()
    &&& job_offers(jobs[i])
    &&& if preferred is Some && has_key(jobs, preferred->Some_0@) && job_offers(
        keyed_map(jobs)[preferred->Some_0@],
    ) {
        jobs[i].job_id@ == preferred->Some_0@
    } else {
        forall|q: int| 0 <= q < i ==> !job_offers(#[trigger] jobs[q])
    }
}

/// Task `a` was taken from job `i` of `jobs`, whose graph became `g2`, leaving `jobs2`.
#[verifier::opaque]
pub open spec fn took_from(
    jobs: Seq<Job>,
    jobs2: Seq<Job>,
    e: String,
    preferred: Option<String>,
    a: TaskAssignment,
    i: int,
    g2: ExecutionGraph,
) -> bool {
    &&& first_offering(jobs, preferred, i)
    &&& popped(jobs[i].graph->Some_0, g2, e, Some(a.task))
    &&& jobs2 == jobs.update(i, with_graph(jobs[i], g2))
    &&& a.job_id == jobs[i].job_id
    &&& a.executor_id == e
}

/// Executor `e` asked for a task, trying job `preferred` first, and got `r`; `jobs` became
/// `jobs2`. It gets none exactly when no job offers one, and then nothing changes.
pub open spec fn took_task(jobs: Seq<Job>, jobs2: Seq<Job>, e: String, preferred: Option<String>, r: Option<
    TaskAssignment,
>) -> bool {
    &&& (r is None <==> forall|i: int| 0 <= i < jobs.len() ==> !job_offers(#[trigger] jobs[i]))
    &&& (r is None ==> jobs2 == jobs)
    &&& (r is Some ==> exists|i: int, g2: ExecutionGraph| #[trigger] took_from(jobs, jobs2, e, preferred, r->Some_0, i, g2))
}

/// The status with the host of a successful task replaced by the host its executor
/// registered, when that executor's metadata is known.
pub open spec fn hosted(st: TaskStatus, meta: Map<Seq<char>, ExecutorMetadata>) -> TaskStatus {
    match st.outcome {
        TaskOutcome::Successful { executor_id, host, outputs } => TaskStatus {
            stage: st.stage,
            partition: st.partition,
            task_id: st.task_id,
            outcome: TaskOutcome::Successful {
                executor_id,
                host: if meta.contains_key(executor_id@) {
                    meta[executor_id@].host
                } else {
                    host
                },
                outputs,
            },
        },
        _ => st,
    }
}

/// The metric events recorded when job `j`, running until now, reaches graph `g2` at `now`.
pub open spec fn end_events(j: Job, g2: ExecutionGraph, now: u64) -> Seq<MetricEvent> {
    if j.status != JobStatus::Running {
        Seq::empty()
    } else if g2.status_view() == GraphStatus::Successful {
        seq![MetricEvent::Completed(j.job_id, j.queued_at, now)]
    } else if g2.status_view() == GraphStatus::Failed {
        seq![MetricEvent::Failed(j.job_id, j.queued_at, now)]
    } else {
        Seq::empty()
    }
}

/// Job `i`'s graph applied status `st` and became `g2`, leaving `jobs2` and events `ev2`.
#[verifier::opaque]
pub open spec fn applied_to(
    jobs: Seq<Job>,
    ev: Seq<MetricEvent>,
    jobs2: Seq<Job>,
    ev2: Seq<MetricEvent>,
    st: TaskStatus,
    now: u64,
    i: int,
    g2: ExecutionGraph,
    r: StatusEffect,
) -> bool {
    &&& 0 <= i < jobs.len()
    &&& jobs[i].graph is Some
    &&& status_applied(jobs[i].graph->Some_0, g2, st, r)
    &&& jobs2 == jobs.update(i, with_graph(jobs[i], g2))
    &&& ev2 == ev + end_events(jobs[i], g2, now)
}

/// Status `st` was applied at `now` to the job it names, with hosts from `meta`: `jobs` and
/// events `ev` became `jobs2` and `ev2`. A status for an unknown or unplanned job changes nothing.
pub open spec fn status_step(
    jobs: Seq<Job>,
    ev: Seq<MetricEvent>,
    jobs2: Seq<Job>,
    ev2: Seq<MetricEvent>,
    st: JobTaskStatus,
    meta: Map<Seq<char>, ExecutorMetadata>,
    now: u64,
) -> bool {
    if has_key(jobs, st.job_id@) && jobs[index_of(jobs, st.job_id@)].graph is Some {
        exists|g2: ExecutionGraph, r: StatusEffect| #[trigger] applied_to(
            jobs,
            ev,
            jobs2,
            ev2,
            hosted(st.status, meta),
            now,
            index_of(jobs, st.job_id@),
            g2,
            r,
        )
    } else {
        jobs2 == jobs && ev2 == ev
    }
}

/// The statuses `sts` were applied in order.
pub open spec fn statuses_step(
    jobs: Seq<Job>,
    ev: Seq<MetricEvent>,
    jobs2: Seq<Job>,
    ev2: Seq<MetricEvent>,
    sts: Seq<JobTaskStatus>,
    meta: Map<Seq<char>, ExecutorMetadata>,
    now: u64,
) -> bool
    decreases sts.len(),
{
    if sts.len() == 0 {
        jobs2 == jobs && ev2 == ev
    } else {
        exists|jm: Seq<Job>, em: Seq<MetricEvent>|
            statuses_step(jobs, ev, jm, em, sts.drop_last(), meta, now) && #[trigger] status_step(
                jm,
                em,
                jobs2,
                ev2,
                sts.last(),
                meta,
                now,
            )
    }
}

/// Reservations `rs`, offered in order to the jobs `jobs`, gave the tasks `a` and left the
/// reservations `u` unfilled, and the jobs became `jobs2`: each reservation asked for a task
/// on its executor, trying its assigned job first.
pub open spec fn fill_seq(
    jobs: Seq<Job>,
    jobs2: Seq<Job>,
    rs: Seq<ExecutorReservation>,
    a: Seq<TaskAssignment>,
    u: Seq<ExecutorReservation>,
) -> bool
    decreases rs.len(),
{
    if rs.len() == 0 {
        jobs2 == jobs && a.len() == 0 && u.len() == 0
    } else {
        let x = rs.last();
        ||| (a.len() > 0 && exists|jm: Seq<Job>|
            #[trigger] took_task(jm, jobs2, x.executor_id, x.job_id, Some(a.last())) && fill_seq(
                jobs,
                jm,
                rs.drop_last(),
                a.drop_last(),
                u,
            ))
        ||| (u.len() > 0 && u.last() == x && took_task(jobs2, jobs2, x.executor_id, x.job_id, None) && fill_seq(
            jobs,
            jobs2,
            rs.drop_last(),
            a,
            u.drop_last(),
        ))
    }
}

pub proof fn lemma_fill_seq_assigned(
    jobs: Seq<Job>,
    jm: Seq<Job>,
    jobs2: Seq<Job>,
    rs: Seq<ExecutorReservation>,
    a: Seq<TaskAssignment>,
    u: Seq<ExecutorReservation>,
    x: ExecutorReservation,
    t: TaskAssignment,
)
    requires
        fill_seq(jobs, jm, rs, a, u),
        took_task(jm, jobs2, x.executor_id, x.job_id, Some(t)),
    ensures
        fill_seq(jobs, jobs2, rs.push(x), a.push(t), u),
{
    assert(rs.push(x).drop_last() =~= rs);
    assert(a.push(t).drop_last() =~= a);
    assert(rs.push(x).last() == x);
    assert(a.push(t).last() == t);
}

pub proof fn lemma_fill_seq_unfilled(
    jobs: Seq<Job>,
    jobs2: Seq<Job>,
    rs: Seq<ExecutorReservation>,
    a: Seq<TaskAssignment>,
    u: Seq<ExecutorReservation>,
    x: ExecutorReservation,
)
    requires
        fill_seq(jobs, jobs2, rs, a, u),
        took_task(jobs2, jobs2, x.executor_id, x.job_id, None),
    ensures
        fill_seq(jobs, jobs2, rs.push(x), a, u.push(x)),
{
    assert(rs.push(x).drop_last() =~= rs);
    assert(u.push(x).drop_last() =~= u);
    assert(rs.push(x).last() == x);
    assert(u.push(x).last() == x);
}

/// The distribution that slots policy `p` reserves with.
pub open spec fn distribution_of(p: SlotsPolicy) -> TaskDistribution {
    if p == SlotsPolicy::Bias {
        TaskDistribution::Bias
    } else {
        TaskDistribution::RoundRobin
    }
}

/// Job `j` became `j2` when executor `e` was lost for `reason`: its graph failed the tasks
/// running there, as `ExecutionGraph::executor_lost` does.
pub open spec fn lost_job(j: Job, j2: Job, e: Seq<char>, reason: String) -> bool {
    if j.graph is Some {
        exists|g2: ExecutionGraph, r: StatusEffect|
            #[trigger] crate::graph::lost_applied(j.graph->Some_0, g2, e, reason, r) && j2 == with_graph(j, g2)
    } else {
        j2 == j
    }
}

/// The events recorded for the first `i` jobs when `jobs` became `jobs2`.
pub open spec fn lost_events(jobs: Seq<Job>, jobs2: Seq<Job>, now: u64, i: int) -> Seq<MetricEvent>
    decreases i,
{
    if i <= 0 || i > jobs.len() {
        Seq::empty()
    } else {
        lost_events(jobs, jobs2, now, i - 1) + if jobs[i - 1].graph is Some && jobs2[i - 1].graph is Some {
            end_events(jobs[i - 1], jobs2[i - 1].graph->Some_0, now)
        } else {
            Seq::empty()
        }
    }
}

/// Every job lost the tasks running on executor `e` at `now`, and the jobs that failed on that
/// account were recorded, in job order.
pub open spec fn lost_everywhere(
    jobs: Seq<Job>,
    ev: Seq<MetricEvent>,
    jobs2: Seq<Job>,
    ev2: Seq<MetricEvent>,
    e: Seq<char>,
    reason: String,
    now: u64,
) -> bool {
    &&& jobs2.len() == jobs.len()
    &&& forall|i: int| 0 <= i < jobs.len() ==> #[trigger] lost_job(jobs[i], jobs2[i], e, reason)
    &&& ev2 == ev + lost_events(jobs, jobs2, now, jobs.len() as int)
}

/// The executors `ids` were lost in turn.
pub open spec fn lost_seq(
    jobs: Seq<Job>,
    ev: Seq<MetricEvent>,
    jobs2: Seq<Job>,
    ev2: Seq<MetricEvent>,
    ids: Seq<String>,
    reason: String,
    now: u64,
) -> bool
    decreases ids.len(),
{
    if ids.len() == 0 {
        jobs2 == jobs && ev2 == ev
    } else {
        exists|jm: Seq<Job>, em: Seq<MetricEvent>|
            lost_seq(jobs, ev, jm, em, ids.drop_last(), reason, now) && #[trigger] lost_everywhere(
                jm,
                em,
                jobs2,
                ev2,
                ids.last()@,
                reason,
                now,
            )
    }
}

pub proof fn lemma_lost_seq_push(
    jobs: Seq<Job>,
    ev: Seq<MetricEvent>,
    jm: Seq<Job>,
    em: Seq<MetricEvent>,
    jobs2: Seq<Job>,
    ev2: Seq<MetricEvent>,
    ids: Seq<String>,
    x: String,
    reason: String,
    now: u64,
)
    requires
        lost_seq(jobs, ev, jm, em, ids, reason, now),
        lost_everywhere(jm, em, jobs2, ev2, x@, reason, now),
    ensures
        lost_seq(jobs, ev, jobs2, ev2, ids.push(x), reason, now),
{
    let t = ids.push(x);
    assert(t.drop_last() =~= ids);
    assert(t.last() == x);
}

proof fn lemma_lost_events_frame(jobs: Seq<Job>, a: Seq<Job>, b: Seq<Job>, now: u64, i: int)
    requires
        0 <= i <= jobs.len(),
        a.len() == jobs.len(),
        b.len() == jobs.len(),
        forall|q: int| 0 <= q < i ==> a[q] == b[q],
    ensures
        lost_events(jobs, a, now, i) == lost_events(jobs, b, now, i),
    decreases i,
{
    if i > 0 {
        lemma_lost_events_frame(jobs, a, b, now, i - 1);
        assert(a[i - 1] == b[i - 1]);
    }
}

/// The events that change the scheduler's state, applied one at a time in the order posted.
pub enum QueryStageSchedulerEvent {
    /// A job was planned (or its planning failed) after being queued at `queued_at`.
    JobQueued { job_id: String, job_name: String, plan: Result<Vec<StagePlan>, SchedulerError>, queued_at: u64 },
    /// An executor reported task statuses.
    TaskUpdating(String, Vec<JobTaskStatus>),
    /// Reserved slots to fill with tasks.
    ReservationOffering(Vec<ExecutorReservation>),
    /// An executor was lost, with the reason if one is known.
    ExecutorLost(String, Option<String>),
    /// A client cancelled a job.
    JobCancel(String),
}

/// The metadata an executor registers with: its id, its host (the one it names, else the
/// address it called from), its ports, and its slots.
pub open spec fn metadata_of(registration: ExecutorRegistration, remote_host: String) -> ExecutorMetadata {
    ExecutorMetadata {
        id: registration.id,
        host: match registration.optional_host {
            Some(h) => h,
            None => remote_host,
        },
        port: registration.port as u16,
        grpc_port: registration.grpc_port as u16,
        specification: registration.specification->Some_0,
    }
}

/// The scheduler's state: executors and their slots, jobs and their graphs, and where job
/// lifecycle events are recorded. Every change goes through its methods, one at a time.
pub struct SchedulerServer<M: SchedulerMetricsCollector> {
    pub scheduler_name: String,
    config: SchedulerConfig,
    executor_manager: ExecutorManager,
    jobs: Vec<Job>,
    sessions: Vec<Session>,
    metrics: M,
    recorded: Ghost<Seq<MetricEvent>>,
}

impl<M: SchedulerMetricsCollector> SchedulerServer<M> {
    pub closed spec fn manager(&self) -> ExecutorManager {
        self.executor_manager
    }

    pub closed spec fn jobs_view(&self) -> Seq<Job> {
        self.jobs@
    }

    /// The saved sessions, by id.
    pub closed spec fn sessions_map(&self) -> Map<Seq<char>, Session> {
        keyed_map(self.sessions@)
    }

    /// The job lifecycle events handed to the metrics collector, in order.
    pub closed spec fn events(&self) -> Seq<MetricEvent> {
        self.recorded@
    }

    pub closed spec fn slots_policy(&self) -> SlotsPolicy {
        self.config.executor_slots_policy
    }

    pub closed spec fn policy(&self) -> TaskSchedulingPolicy {
        self.config.scheduling_policy
    }

    pub closed spec fn wf(&self) -> bool {
        &&& self.executor_manager.wf()
        &&& unique_keys(self.jobs@)
        &&& unique_keys(self.sessions@)
        &&& forall|i: int| 0 <= i < self.jobs@.len() ==> job_ok(#[trigger] self.jobs@[i])
    }

    /// A scheduler named `scheduler_name` with no executor and no job.
    pub fn new(scheduler_name: String, config: SchedulerConfig, metrics: M) -> (r: Self)
        ensures
            r.wf(),
            r.jobs_view().len() == 0,
            r.policy() == config.scheduling_policy,
            r.manager().ledger().len() == 0,
            r.events().len() == 0,
    {
        SchedulerServer {
            scheduler_name,
            config,
            executor_manager: ExecutorManager::new(),
            jobs: Vec::new(),
            sessions: Vec::new(),
            metrics,
            recorded: Ghost(Seq::empty()),
        }
    }

    /// The executor manager.
    pub fn executor_manager(&self) -> (r: &ExecutorManager)
        ensures
            *r == self.manager(),
    {
        &self.executor_manager
    }

    /// Where job lifecycle events were recorded.
    pub fn metrics_collector(&self) -> &M {
        &self.metrics
    }

    /// Whether the scheduler pushes tasks to executors.
    pub fn is_push_staged(&self) -> (r: bool)
        ensures
            r == (self.policy() == TaskSchedulingPolicy::PushStaged),
    {
        self.config.is_push_staged_scheduling()
    }

    /// The status of job `job_id`; None for a job the scheduler does not know.
    pub fn get_job_status(&self, job_id: &String) -> (r: Option<JobStatus>)
        requires
            self.wf(),
        ensures
            r == if keyed_map(self.jobs_view()).contains_key(job_id@) {
                Some(keyed_map(self.jobs_view())[job_id@].status)
            } else {
                None::<JobStatus>
            },
    {
        match find_key(&self.jobs, job_id) {
            Some(i) => {
                proof {
                    lemma_keyed_at(self.jobs@, i as int);
                }
                Some(self.jobs[i].status)
            },
            None => None,
        }
    }

    /// The graph of job `job_id`, once it was planned.
    pub fn job_graph(&self, job_id: &String) -> (r: Option<&ExecutionGraph>)
        requires
            self.wf(),
        ensures
            match r {
                Some(g) => keyed_map(self.jobs_view()).contains_key(job_id@)
                    && keyed_map(self.jobs_view())[job_id@].graph == Some(*g),
                None => !keyed_map(self.jobs_view()).contains_key(job_id@) || keyed_map(
                    self.jobs_view(),
                )[job_id@].graph is None,
            },
    {
        match find_key(&self.jobs, job_id) {
            Some(i) => {
                proof {
                    lemma_keyed_at(self.jobs@, i as int);
                }
                match &self.jobs[i].graph {
                    Some(g) => Some(g),
                    None => None,
                }
            },
            None => None,
        }
    }

    /// Record job `job_id`, named `job_name`, as queued at `queued_at`, waiting to be planned.
    /// An id already in use is refused with `Conflict`, and nothing changes.
    pub fn accept_job(&mut self, job_id: String, job_name: String, queued_at: u64) -> (r: Result<(), SchedulerError>)
        requires
            old(self).wf(),
        ensures
            final(self).wf(),
            final(self).manager() == old(self).manager(),
            final(self).policy() == old(self).policy(),
            final(self).sessions_map() == old(self).sessions_map(),
            r is Err <==> has_key(old(self).jobs_view(), job_id@),
            r matches Err(e) ==> e == SchedulerError::Conflict && final(self).jobs_view() == old(self).jobs_view(),
            r is Ok ==> keyed_map(final(self).jobs_view()) == keyed_map(old(self).jobs_view()).insert(
                job_id@,
                (Job { job_id, job_name, queued_at, status: JobStatus::Queued, graph: None }),
            ),
    {
        if find_key(&self.jobs, &job_id).is_some() {
            return Err(SchedulerError::Conflict);
        }
        let job = Job { job_id, job_name, queued_at, status: JobStatus::Queued, graph: None };
        let ghost before = self.jobs@;
        crate::keyed::upsert(&mut self.jobs, job);
        proof {
            assert(self.jobs@ == before.push(job));
            assert forall|i: int| 0 <= i < self.jobs@.len() implies job_ok(#[trigger] self.jobs@[i]) by {
                if i < before.len() {
                    assert(self.jobs@[i] == before[i]);
                }
            }
        }
        Ok(())
    }

    /// Plan job `job_id` with the stages that planning produced at `now`, or its planning error:
    /// the job waiting in the queue under that id, or else a new job queued at `queued_at`.
    /// A job whose planning failed, or whose stages do not form a valid plan, is recorded as
    /// Failed; any other starts Running. A job that is known and no longer waits is refused
    /// with `Conflict`, and nothing changes.
    pub fn submit_job(
        &mut self,
        job_id: String,
        job_name: String,
        plan: Result<Vec<StagePlan>, SchedulerError>,
        queued_at: u64,
        now: u64,
    ) -> (r: Result<JobStatus, SchedulerError>)
        requires
            old(self).wf(),
        ensures
            final(self).wf(),
            final(self).manager() == old(self).manager(),
            final(self).slots_policy() == old(self).slots_policy(),
            final(self).policy() == old(self).policy(),
            final(self).sessions_map() == old(self).sessions_map(),
            r is Err <==> has_key(old(self).jobs_view(), job_id@) && keyed_map(old(self).jobs_view())[job_id@].status
                != JobStatus::Queued,
            r matches Err(e) ==> e == SchedulerError::Conflict && final(self).jobs_view() == old(self).jobs_view()
                && final(self).events() == old(self).events(),
            r matches Ok(st) ==> {
                let job = keyed_map(final(self).jobs_view())[job_id@];
                &&& final(self).events() == old(self).events().push(
                    if st == JobStatus::Running {
                        MetricEvent::Submitted(job_id, job.queued_at, now)
                    } else {
                        MetricEvent::Failed(job_id, job.queued_at, now)
                    },
                )
                &&& st == (if plan is Ok && valid_plan(plan->Ok_0@) {
                    JobStatus::Running
                } else {
                    JobStatus::Failed
                })
                &&& keyed_map(final(self).jobs_view()).contains_key(job_id@)
                &&& keyed_map(final(self).jobs_view()).remove(job_id@) == keyed_map(old(self).jobs_view()).remove(job_id@)
                &&& job.job_id == job_id
                &&& job.status == st
                &&& job.queued_at == if has_key(old(self).jobs_view(), job_id@) {
                    keyed_map(old(self).jobs_view())[job_id@].queued_at
                } else {
                    queued_at
                }
                &&& (st == JobStatus::Running ==> (job.graph is Some && job.graph->Some_0.status_view()
                    == GraphStatus::Running))
                &&& (st == JobStatus::Failed ==> job.graph is None)
            },
    {
        let queued_at = match find_key(&self.jobs, &job_id) {
            Some(i) => {
                proof {
                    lemma_keyed_at(self.jobs@, i as int);
                }
                if self.jobs[i].status != JobStatus::Queued {
                    return Err(SchedulerError::Conflict);
                }
                self.jobs[i].queued_at
            },
            None => queued_at,
        };
        let graph = match plan {
            Ok(stages) => match ExecutionGraph::new(job_id.clone(), stages) {
                Ok(g) => Some(g),
                Err(_) => None,
            },
            Err(_) => None,
        };
        let status = if graph.is_some() {
            JobStatus::Running
        } else {
            JobStatus::Failed
        };
        if graph.is_some() {
            self.metrics.record_submitted(job_id.as_str(), queued_at, now);
            proof {
                self.recorded = Ghost(self.recorded@.push(MetricEvent::Submitted(job_id, queued_at, now)));
            }
        } else {
            self.metrics.record_failed(job_id.as_str(), queued_at, now);
            proof {
                self.recorded = Ghost(self.recorded@.push(MetricEvent::Failed(job_id, queued_at, now)));
            }
        }
        let job = Job { job_id, job_name, queued_at, status, graph };
        let ghost before = self.jobs@;
        crate::keyed::upsert(&mut self.jobs, job);
        proof {
            lemma_keyed_key(before);
            assert forall|i: int| 0 <= i < self.jobs@.len() implies job_ok(#[trigger] self.jobs@[i]) by {
                if has_key(before, job.key()) {
                    let q = index_of(before, job.key());
                    if i != q {
                        assert(self.jobs@[i] == before[i]);
                    }
                } else if i < before.len() {
                    assert(self.jobs@[i] == before[i]);
                }
            }
            assert(keyed_map(self.jobs@).remove(job.key()) =~= keyed_map(before).remove(job.key()));
        }
        Ok(status)
    }

    /// Try to take a task for executor `executor_id` from job `i`.
    fn try_job(&mut self, i: usize, executor_id: &String) -> (r: Option<TaskAssignment>)
        requires
            old(self).wf(),
            i < old(self).jobs_view().len(),
        ensures
            final(self).wf(),
            final(self).manager() == old(self).manager(),
            final(self).slots_policy() == old(self).slots_policy(),
            final(self).policy() == old(self).policy(),
            final(self).events() == old(self).events(),
            final(self).sessions_map() == old(self).sessions_map(),
            r is None <==> !job_offers(old(self).jobs_view()[i as int]),
            r is None ==> final(self).jobs_view() == old(self).jobs_view(),
            r matches Some(a) ==> a.executor_id == *executor_id && a.job_id == old(self).jobs_view()[i as int].job_id
                && exists|g2: ExecutionGraph|
                #[trigger] popped(old(self).jobs_view()[i as int].graph->Some_0, g2, *executor_id, Some(a.task))
                    && final(self).jobs_view() == old(self).jobs_view().update(
                    i as int,
                    with_graph(old(self).jobs_view()[i as int], g2),
                ),
    {
        if self.jobs[i].graph.is_none() {
            return None;
        }
        let ghost before = self.jobs@;
        let mut job = self.jobs.remove(i);
        let mut graph = job.graph.unwrap();
        let ghost g0 = graph;
        let task = graph.pop_next_task(executor_id);
        let status = job_status_of(graph.status());
        job.graph = Some(graph);
        job.status = status;
        let job_id = job.job_id.clone();
        self.jobs.insert(i, job);
        proof {
            assert(self.jobs@ =~= before.update(i as int, job));
            assert(job.key() == before[i as int].key());
            crate::keyed::lemma_keyed_update(before, i as int, job);
            assert forall|a: int| 0 <= a < self.jobs@.len() implies job_ok(#[trigger] self.jobs@[a]) by {
                if a != i {
                    assert(self.jobs@[a] == before[a]);
                }
            }
            assert(job == with_graph(before[i as int], graph));
            if task is None {
                assert(job == before[i as int]);
                assert(self.jobs@ =~= before);
            }
        }
        match task {
            Some(t) => {
                let a = TaskAssignment { executor_id: executor_id.clone(), job_id, task: t };
                proof {
                    assert(Some(a.task) == task);
                    assert(old(self).jobs_view()[i as int].graph->Some_0 == g0);
                    assert(popped(old(self).jobs_view()[i as int].graph->Some_0, graph, *executor_id, Some(a.task)));
                    assert(self.jobs_view() == old(self).jobs_view().update(
                        i as int,
                        with_graph(old(self).jobs_view()[i as int], graph),
                    ));
                    assert(a.job_id == old(self).jobs_view()[i as int].job_id);
                    assert(exists|g2: ExecutionGraph|
                        #[trigger] popped(old(self).jobs_view()[i as int].graph->Some_0, g2, *executor_id, Some(a.task))
                            && self.jobs_view() == old(self).jobs_view().update(
                            i as int,
                            with_graph(old(self).jobs_view()[i as int], g2),
                        ));
                }
                Some(a)
            },
            None => None,
        }
    }

    /// Hand executor `executor_id` a task of the job `preferred` if it offers one, else of
    /// the first job that does.
    fn next_task_for(&mut self, executor_id: &String, preferred: &Option<String>) -> (r: Option<TaskAssignment>)
        requires
            old(self).wf(),
        ensures
            final(self).wf(),
            final(self).manager() == old(self).manager(),
            final(self).slots_policy() == old(self).slots_policy(),
            final(self).policy() == old(self).policy(),
            final(self).events() == old(self).events(),
            final(self).sessions_map() == old(self).sessions_map(),
            jobs_advance(old(self).jobs_view(), final(self).jobs_view()),
            took_task(old(self).jobs_view(), final(self).jobs_view(), *executor_id, *preferred, r),
            r matches Some(a) ==> a.executor_id == *executor_id,
    {
        let ghost jobs0 = self.jobs@;
        let mut pref_offers = false;
        match preferred {
            Some(job) => match find_key(&self.jobs, job) {
                Some(p) => {
                    proof {
                        lemma_keyed_at(self.jobs@, p as int);
                    }
                    let r = self.try_job(p, executor_id);
                    match r {
                        Some(a) => {
                            proof {
                                let g2 = choose|g2: ExecutionGraph|
                                    #[trigger] popped(jobs0[p as int].graph->Some_0, g2, *executor_id, Some(a.task))
                                        && self.jobs@ == jobs0.update(p as int, with_graph(jobs0[p as int], g2));
                                assert(first_offering(jobs0, *preferred, p as int));
                                assert(took_from(jobs0, self.jobs@, *executor_id, *preferred, a, p as int, g2)) by {
                                    reveal(took_from);
                                }
                                assert(Some(a)->Some_0 == a);
                                lemma_took_advances(jobs0, self.jobs@, *executor_id, *preferred, a, p as int, g2);
                            }
                            return Some(a);
                        },
                        None => {},
                    }
                },
                None => {},
            },
            None => {},
        }
        let n = self.jobs.len();
        let mut i: usize = 0;
        while i < n
            invariant
                self.wf(),
                self.jobs@ == jobs0,
                jobs0 == old(self).jobs_view(),
                self.executor_manager == old(self).executor_manager,
                self.config.scheduling_policy == old(self).config.scheduling_policy,
                self.config.executor_slots_policy == old(self).config.executor_slots_policy,
                self.recorded == old(self).recorded,
                self.sessions_map() == old(self).sessions_map(),
                n == jobs0.len(),
                0 <= i <= n,
                forall|q: int| 0 <= q < i ==> !job_offers(#[trigger] jobs0[q]),
                preferred is Some && has_key(jobs0, preferred->Some_0@) ==> !job_offers(
                    keyed_map(jobs0)[preferred->Some_0@],
                ),
            decreases n - i,
        {
            let r = self.try_job(i, executor_id);
            match r {
                Some(a) => {
                    proof {
                        let g2 = choose|g2: ExecutionGraph|
                            #[trigger] popped(jobs0[i as int].graph->Some_0, g2, *executor_id, Some(a.task))
                                && self.jobs@ == jobs0.update(i as int, with_graph(jobs0[i as int], g2));
                        assert(first_offering(jobs0, *preferred, i as int));
                        assert(took_from(jobs0, self.jobs@, *executor_id, *preferred, a, i as int, g2)) by {
                            reveal(took_from);
                        }
                        assert(Some(a)->Some_0 == a);
                        lemma_took_advances(jobs0, self.jobs@, *executor_id, *preferred, a, i as int, g2);
                    }
                    return Some(a);
                },
                None => {},
            }
            i = i + 1;
        }
        None
    }

    /// Apply one status to its job's graph and record the job's end when it ends. The host
    /// of a successful task is the one its executor registered, when it is known.
    fn apply_status(&mut self, st: JobTaskStatus, now: u64)
        requires
            old(self).wf(),
        ensures
            final(self).wf(),
            final(self).manager() == old(self).manager(),
            final(self).slots_policy() == old(self).slots_policy(),
            final(self).policy() == old(self).policy(),
            final(self).sessions_map() == old(self).sessions_map(),
            jobs_advance(old(self).jobs_view(), final(self).jobs_view()),
            status_step(
                old(self).jobs_view(),
                old(self).events(),
                final(self).jobs_view(),
                final(self).events(),
                st,
                old(self).manager().metadata_map(),
                now,
            ),
    {
        let ghost st0 = st;
        let ghost meta = self.executor_manager.metadata_map();
        let JobTaskStatus { job_id, status } = st;
        let i = match find_key(&self.jobs, &job_id) {
            Some(i) => i,
            None => {
                return ;
            },
        };
        proof {
            let q = index_of(self.jobs@, job_id@);
            assert(self.jobs@[q].key() == job_id@);
            assert(q == i as int);
        }
        if self.jobs[i].graph.is_none() {
            return ;
        }
        let TaskStatus { stage, partition, task_id, outcome } = status;
        let outcome = match outcome {
            TaskOutcome::Successful { executor_id, host, outputs } => {
                let host = match self.executor_manager.get_executor_metadata(&executor_id) {
                    Ok(m) => m.host,
                    Err(_) => host,
                };
                TaskOutcome::Successful { executor_id, host, outputs }
            },
            other => other,
        };
        let status = TaskStatus { stage, partition, task_id, outcome };
        proof {
            assert(status == hosted(st0.status, meta));
        }
        let ghost before = self.jobs@;
        let ghost ev0 = self.recorded@;
        let mut job = self.jobs.remove(i);
        let mut graph = job.graph.unwrap();
        let ghost g0 = graph;
        let effect = graph.update_task_status(status);
        let new_status = job_status_of(graph.status());
        let ghost job0 = before[i as int];
        job.graph = Some(graph);
        job.status = new_status;
        match effect {
            StatusEffect::JobSucceeded => {
                self.metrics.record_completed(job.job_id.as_str(), job.queued_at, now);
                proof {
                    self.recorded = Ghost(self.recorded@.push(MetricEvent::Completed(job.job_id, job.queued_at, now)));
                }
            },
            StatusEffect::JobFailed => {
                self.metrics.record_failed(job.job_id.as_str(), job.queued_at, now);
                proof {
                    self.recorded = Ghost(self.recorded@.push(MetricEvent::Failed(job.job_id, job.queued_at, now)));
                }
            },
            _ => {},
        }
        self.jobs.insert(i, job);
        proof {
            assert(self.jobs@ =~= before.update(i as int, job));
            crate::keyed::lemma_keyed_update(before, i as int, job);
            assert forall|a: int| 0 <= a < self.jobs@.len() implies job_ok(#[trigger] self.jobs@[a]) by {
                if a != i {
                    assert(self.jobs@[a] == before[a]);
                }
            }
            assert forall|a: int| 0 <= a < before.len() && a != i implies #[trigger] self.jobs@[a] == before[a] by {}
            assert(job == with_graph(job0, graph));
            assert(job0.status == JobStatus::Running <==> !crate::graph::finished(g0.status_view()));
            assert(self.recorded@ =~= ev0 + end_events(job0, graph, now));
            assert(applied_to(before, ev0, self.jobs@, self.recorded@, status, now, i as int, graph, effect)) by {
                reveal(applied_to);
            }
        }
    }

    /// Apply the statuses that executor `executor_id` reported at `now`, in order, each to
    /// the job it names.
    pub fn update_task_statuses(&mut self, executor_id: &String, statuses: Vec<JobTaskStatus>, now: u64)
        requires
            old(self).wf(),
        ensures
            final(self).wf(),
            final(self).manager() == old(self).manager(),
            final(self).slots_policy() == old(self).slots_policy(),
            final(self).policy() == old(self).policy(),
            final(self).sessions_map() == old(self).sessions_map(),
            jobs_advance(old(self).jobs_view(), final(self).jobs_view()),
            statuses_step(
                old(self).jobs_view(),
                old(self).events(),
                final(self).jobs_view(),
                final(self).events(),
                statuses@,
                old(self).manager().metadata_map(),
                now,
            ),
    {
        let ghost all = statuses@;
        let ghost meta = self.executor_manager.metadata_map();
        let mut statuses = statuses;
        let ghost mut k: int = 0;
        proof {
            assert(all.take(0).len() == 0);
        }
        while statuses.len() > 0
            invariant
                self.wf(),
                self.executor_manager == old(self).executor_manager,
                meta == old(self).manager().metadata_map(),
                self.config.executor_slots_policy == old(self).config.executor_slots_policy,
                self.config.scheduling_policy == old(self).config.scheduling_policy,
                self.sessions_map() == old(self).sessions_map(),
                jobs_advance(old(self).jobs_view(), self.jobs@),
                0 <= k <= all.len(),
                statuses@ == all.skip(k),
                statuses_step(old(self).jobs_view(), old(self).events(), self.jobs@, self.recorded@, all.take(k), meta, now),
            decreases statuses@.len(),
        {
            let st = statuses.remove(0);
            proof {
                assert(st == all[k]);
                assert(statuses@ =~= all.skip(k + 1));
            }
            let ghost before = self.jobs@;
            let ghost ev_before = self.recorded@;
            self.apply_status(st, now);
            proof {
                lemma_jobs_advance_trans(old(self).jobs_view(), before, self.jobs@);
                assert(all.take(k + 1) =~= all.take(k).push(st));
                lemma_statuses_step_push(
                    old(self).jobs_view(),
                    old(self).events(),
                    before,
                    ev_before,
                    self.jobs@,
                    self.recorded@,
                    all.take(k),
                    st,
                    meta,
                    now,
                );
                k = k + 1;
            }
        }
        proof {
            assert(all.take(k) =~= all);
        }
    }

    /// Fill the reservations with tasks of running jobs, each on its reservation's executor
    /// and preferring the job it is assigned to. Returns the tasks handed out and the
    /// reservations left unfilled, which the caller hands back to the ledger.
    pub fn fill_reservations(&mut self, reservations: Vec<ExecutorReservation>) -> (r: (
        Vec<TaskAssignment>,
        Vec<ExecutorReservation>,
    ))
        requires
            old(self).wf(),
        ensures
            final(self).wf(),
            final(self).policy() == old(self).policy(),
            final(self).slots_policy() == old(self).slots_policy(),
            final(self).manager() == old(self).manager(),
            final(self).events() == old(self).events(),
            final(self).sessions_map() == old(self).sessions_map(),
            jobs_advance(old(self).jobs_view(), final(self).jobs_view()),
            fill_seq(old(self).jobs_view(), final(self).jobs_view(), reservations@, r.0@, r.1@),
            r.0@.len() + r.1@.len() == reservations@.len(),
            forall|i: int| 0 <= i < r.0@.len() ==> #[trigger] reserved_on(reservations@, r.0@[i].executor_id@),
            forall|i: int| 0 <= i < r.1@.len() ==> reservations@.contains(#[trigger] r.1@[i]),
    {
        let mut assignments: Vec<TaskAssignment> = Vec::new();
        let mut unassigned: Vec<ExecutorReservation> = Vec::new();
        let ghost all = reservations@;
        let mut rest = reservations;
        let ghost total = rest@.len();
        let ghost mut k: int = 0;
        proof {
            assert(all.take(0) =~= Seq::<ExecutorReservation>::empty());
        }
        while rest.len() > 0
            invariant
                self.wf(),
                self.executor_manager == old(self).executor_manager,
                self.policy() == old(self).policy(),
                self.slots_policy() == old(self).slots_policy(),
                self.recorded == old(self).recorded,
                self.sessions_map() == old(self).sessions_map(),
                jobs_advance(old(self).jobs_view(), self.jobs@),
                assignments@.len() + unassigned@.len() + rest@.len() == total,
                total == all.len(),
                0 <= k <= all.len(),
                rest@ == all.skip(k),
                fill_seq(old(self).jobs_view(), self.jobs@, all.take(k), assignments@, unassigned@),
                forall|i: int| 0 <= i < assignments@.len() ==> #[trigger] reserved_on(all, assignments@[i].executor_id@),
                forall|i: int| 0 <= i < unassigned@.len() ==> all.contains(#[trigger] unassigned@[i]),
            decreases rest@.len(),
        {
            let res = rest.remove(0);
            proof {
                assert(res == all[k]);
                assert(rest@ =~= all.skip(k + 1));
                assert(all.take(k + 1) =~= all.take(k).push(res));
            }
            let ghost before = self.jobs@;
            let task = self.next_task_for(&res.executor_id, &res.job_id);
            proof {
                lemma_jobs_advance_trans(old(self).jobs_view(), before, self.jobs@);
            }
            let ghost before_a = assignments@;
            let ghost before_u = unassigned@;
            match task {
                Some(t) => {
                    proof {
                        lemma_fill_seq_assigned(old(self).jobs_view(), before, self.jobs@, all.take(k), before_a, before_u, res, t);
                    }
                    assignments.push(t);
                },
                None => {
                    proof {
                        assert(self.jobs@ == before);
                        lemma_fill_seq_unfilled(old(self).jobs_view(), self.jobs@, all.take(k), before_a, before_u, res);
                    }
                    unassigned.push(res);
                },
            }
            proof {
                assert forall|i: int| 0 <= i < assignments@.len() implies #[trigger] reserved_on(all, assignments@[i].executor_id@) by {
                    if i < before_a.len() {
                        assert(assignments@[i] == before_a[i]);
                    } else {
                        assert(all[k].executor_id == assignments@[i].executor_id);
                    }
                }
                assert forall|i: int| 0 <= i < unassigned@.len() implies all.contains(#[trigger] unassigned@[i]) by {
                    if i < before_u.len() {
                        assert(unassigned@[i] == before_u[i]);
                    } else {
                        assert(all[k] == unassigned@[i]);
                    }
                }
                k = k + 1;
            }
        }
        proof {
            assert(all.take(k) =~= all);
        }
        (assignments, unassigned)
    }

    /// Fill the reservations with tasks, as `fill_reservations` does, and hand those left
    /// unfilled back to the ledger.
    pub fn offer_reservations(&mut self, reservations: Vec<ExecutorReservation>) -> (r: Result<
        Vec<TaskAssignment>,
        SchedulerError,
    >)
        requires
            old(self).wf(),
        ensures
            final(self).wf(),
            final(self).policy() == old(self).policy(),
            final(self).slots_policy() == old(self).slots_policy(),
            final(self).events() == old(self).events(),
            final(self).sessions_map() == old(self).sessions_map(),
            jobs_advance(old(self).jobs_view(), final(self).jobs_view()),
            final(self).manager().metadata_map() == old(self).manager().metadata_map(),
            final(self).manager().heartbeat_map() == old(self).manager().heartbeat_map(),
            exists|a: Seq<TaskAssignment>, u: Seq<ExecutorReservation>|
                #[trigger] fill_seq(old(self).jobs_view(), final(self).jobs_view(), reservations@, a, u) && (match r {
                    Ok(x) => x@ == a && final(self).manager().ledger() == crate::executor_manager::after_cancel(
                        old(self).manager().ledger(),
                        u,
                    ),
                    Err(_) => final(self).manager().ledger() == old(self).manager().ledger(),
                }),
            r matches Ok(a) ==> a@.len() <= reservations@.len() && forall|i: int|
                0 <= i < a@.len() ==> #[trigger] reserved_on(reservations@, a@[i].executor_id@),
    {
        let (assignments, unassigned) = self.fill_reservations(reservations);
        let ghost u = unassigned@;
        let ghost l0 = self.executor_manager.ledger();
        proof {
            assert(l0 == old(self).manager().ledger());
        }
        if unassigned.len() > 0 {
            match self.executor_manager.cancel_reservations(unassigned) {
                Ok(()) => {
                    proof {
                        assert(self.executor_manager.ledger() == crate::executor_manager::after_cancel(l0, u));
                    }
                },
                Err(e) => {
                    proof {
                        assert(fill_seq(old(self).jobs_view(), self.jobs@, reservations@, assignments@, u));
                        assert(self.executor_manager.ledger() == l0);
                        let r: Result<Vec<TaskAssignment>, SchedulerError> = Err(e);
                        assert(fill_seq(old(self).jobs_view(), self.jobs_view(), reservations@, assignments@, u) && (match r {
                            Ok(x) => x@ == assignments@ && self.manager().ledger() == crate::executor_manager::after_cancel(l0, u),
                            Err(_) => self.manager().ledger() == l0,
                        }));
                    }
                    return Err(e);
                },
            }
        } else {
            proof {
                let l = self.executor_manager.ledger();
                assert forall|i: int| 0 <= i < l.len() implies #[trigger] crate::executor_manager::after_cancel(l, u)[i] == l[i] by {
                    assert(count_for(u, l[i].executor_id@) == 0);
                }
                assert(crate::executor_manager::after_cancel(l, u) =~= l);
            }
        }
        proof {
            assert(fill_seq(old(self).jobs_view(), self.jobs_view(), reservations@, assignments@, u));
            assert(self.manager().ledger() == crate::executor_manager::after_cancel(l0, u));
        }
        Ok(assignments)
    }

    /// Reserve the free slots of the executors alive at `now_secs`, as the configured policy
    /// spreads them, and fill them with tasks as `offer_reservations` does.
    pub fn revive_offers(&mut self, now_secs: u64) -> (r: Result<Vec<TaskAssignment>, SchedulerError>)
        requires
            old(self).wf(),
        ensures
            final(self).wf(),
            final(self).manager().metadata_map() == old(self).manager().metadata_map(),
            final(self).manager().heartbeat_map() == old(self).manager().heartbeat_map(),
            final(self).policy() == old(self).policy(),
            final(self).slots_policy() == old(self).slots_policy(),
            final(self).events() == old(self).events(),
            final(self).sessions_map() == old(self).sessions_map(),
            jobs_advance(old(self).jobs_view(), final(self).jobs_view()),
            exists|m: ExecutorManager, rs: Seq<ExecutorReservation>, a: Seq<TaskAssignment>, u: Seq<ExecutorReservation>|
                #[trigger] crate::executor_manager::reserved(
                    old(self).manager(),
                    m,
                    u32::MAX,
                    distribution_of(old(self).slots_policy()),
                    now_secs,
                    rs,
                ) && #[trigger] fill_seq(old(self).jobs_view(), final(self).jobs_view(), rs, a, u) && (match r {
                    Ok(x) => x@ == a && final(self).manager().ledger() == crate::executor_manager::after_cancel(m.ledger(), u),
                    Err(_) => final(self).manager().ledger() == m.ledger(),
                }),
    {
        let distribution = match self.config.executor_slots_policy {
            SlotsPolicy::Bias => TaskDistribution::Bias,
            _ => TaskDistribution::RoundRobin,
        };
        let reservations = self.executor_manager.reserve_slots(u32::MAX, distribution, now_secs);
        let ghost m = self.executor_manager;
        let r = self.offer_reservations(reservations);
        proof {
            let (a, u) = choose|a: Seq<TaskAssignment>, u: Seq<ExecutorReservation>|
                #[trigger] fill_seq(old(self).jobs_view(), self.jobs@, reservations@, a, u) && (match r {
                    Ok(x) => x@ == a && self.executor_manager.ledger() == crate::executor_manager::after_cancel(m.ledger(), u),
                    Err(_) => self.executor_manager.ledger() == m.ledger(),
                });
            assert(crate::executor_manager::reserved(
                old(self).manager(),
                m,
                u32::MAX,
                distribution_of(old(self).slots_policy()),
                now_secs,
                reservations@,
            ));
        }
        r
    }

    /// Register an executor with its slots, as `ExecutorManager::register_executor` does.
    pub fn register_executor(
        &mut self,
        metadata: ExecutorMetadata,
        specification: ExecutorData,
        reserve: bool,
        now_secs: u64,
        reachable: bool,
    ) -> (r: Result<Vec<ExecutorReservation>, SchedulerError>)
        requires
            old(self).wf(),
        ensures
            final(self).wf(),
            final(self).jobs_view() == old(self).jobs_view(),
            final(self).policy() == old(self).policy(),
            !reachable ==> r == Err::<Vec<ExecutorReservation>, SchedulerError>(SchedulerError::Connectivity)
                && final(self).manager() == old(self).manager(),
            final(self).events() == old(self).events(),
            final(self).sessions_map() == old(self).sessions_map(),
            reachable ==> r is Ok && final(self).manager().metadata_map() == old(self).manager().metadata_map().insert(
                metadata.id@,
                metadata,
            ) && final(self).manager().heartbeat_map() == crate::executor_manager::saved_heartbeats(
                old(self).manager().heartbeat_map(),
                (ExecutorHeartbeat { executor_id: metadata.id, timestamp: now_secs, state: None }),
            ) && final(self).manager().ledger() == upsert_seq(
                old(self).manager().ledger(),
                crate::executor_manager::registered_slots(metadata.id, specification.total_task_slots, reserve),
            ),
            r matches Ok(rs) ==> rs@.len() == (if reserve { specification.total_task_slots as int } else { 0 })
                && forall|k: int|
                0 <= k < rs@.len() ==> (#[trigger] rs@[k]).executor_id == metadata.id && rs@[k].job_id.is_none(),
    {
        let r = self.executor_manager.register_executor(metadata, specification, reserve, now_secs, reachable);
        proof {
            if !reachable {
                assert(self.executor_manager.metadata_map() == old(self).executor_manager.metadata_map());
            }
        }
        r
    }

    fn metadata_from(registration: ExecutorRegistration, remote_host: String) -> (r: Result<
        ExecutorMetadata,
        SchedulerError,
    >)
        ensures
            r is Err <==> registration.specification is None,
            r matches Err(e) ==> e == SchedulerError::InvalidArgument,
            r matches Ok(m) ==> m == metadata_of(registration, remote_host),
    {
        let ExecutorRegistration { id, port, grpc_port, specification, optional_host } = registration;
        match specification {
            None => Err(SchedulerError::InvalidArgument),
            Some(specification) => {
                let host = match optional_host {
                    Some(h) => h,
                    None => remote_host,
                };
                Ok(ExecutorMetadata { id, host, port: port as u16, grpc_port: grpc_port as u16, specification })
            },
        }
    }

    /// An executor registers itself at `now_secs` (its host is `remote_host` unless it names
    /// one). Under push scheduling all its slots are reserved and filled with tasks at once;
    /// under pull scheduling they are all left free. A registration without a specification
    /// is refused with `InvalidArgument`, an executor that did not answer with `Connectivity`.
    pub fn register_executor_request(
        &mut self,
        registration: ExecutorRegistration,
        remote_host: String,
        now_secs: u64,
        reachable: bool,
    ) -> (r: Result<Vec<TaskAssignment>, SchedulerError>)
        requires
            old(self).wf(),
        ensures
            final(self).wf(),
            final(self).policy() == old(self).policy(),
            jobs_advance(old(self).jobs_view(), final(self).jobs_view()),
            registration.specification is None ==> r == Err::<Vec<TaskAssignment>, SchedulerError>(
                SchedulerError::InvalidArgument,
            ),
            registration.specification is Some && !reachable ==> r == Err::<Vec<TaskAssignment>, SchedulerError>(
                SchedulerError::Connectivity,
            ),
            final(self).sessions_map() == old(self).sessions_map(),
            final(self).events() == old(self).events(),
            r is Err && (registration.specification is None || !reachable) ==> final(self).manager() == old(self).manager()
                && final(self).jobs_view() == old(self).jobs_view(),
            registration.specification is Some && reachable ==> {
                let id = registration.id;
                let slots = registration.specification->Some_0.task_slots;
                let push = old(self).policy() == TaskSchedulingPolicy::PushStaged;
                let registered = upsert_seq(
                    old(self).manager().ledger(),
                    crate::executor_manager::registered_slots(id, slots, push),
                );
                &&& final(self).manager().metadata_map() == old(self).manager().metadata_map().insert(
                    id@,
                    metadata_of(registration, remote_host),
                )
                &&& final(self).manager().heartbeat_map() == crate::executor_manager::saved_heartbeats(
                    old(self).manager().heartbeat_map(),
                    (ExecutorHeartbeat { executor_id: id, timestamp: now_secs, state: None }),
                )
                &&& !push ==> r is Ok && r->Ok_0@.len() == 0 && final(self).jobs_view() == old(self).jobs_view()
                    && final(self).manager().ledger() == registered
                &&& push ==> exists|rs: Seq<ExecutorReservation>, a: Seq<TaskAssignment>, u: Seq<ExecutorReservation>|
                    #[trigger] fill_seq(old(self).jobs_view(), final(self).jobs_view(), rs, a, u) && rs.len() == slots
                        && (forall|k: int| 0 <= k < rs.len() ==> (#[trigger] rs[k]).executor_id == id && rs[k].job_id.is_none())
                        && (match r {
                        Ok(x) => x@ == a && final(self).manager().ledger() == crate::executor_manager::after_cancel(
                            registered,
                            u,
                        ),
                        Err(_) => final(self).manager().ledger() == registered,
                    })
            },
    {
        let ghost reg = registration;
        let push = self.config.is_push_staged_scheduling();
        let metadata = match Self::metadata_from(registration, remote_host) {
            Ok(m) => m,
            Err(e) => {
                return Err(e);
            },
        };
        let slots = metadata.specification.task_slots;
        let data = ExecutorData { executor_id: metadata.id.clone(), total_task_slots: slots, available_task_slots: slots };
        let reservations = match self.executor_manager.register_executor(metadata, data, push, now_secs, reachable) {
            Ok(rs) => rs,
            Err(e) => {
                return Err(e);
            },
        };
        if push {
            let ghost rs = reservations@;
            let r = self.offer_reservations(reservations);
            proof {
                let (a, u) = choose|a: Seq<TaskAssignment>, u: Seq<ExecutorReservation>|
                    #[trigger] fill_seq(old(self).jobs_view(), self.jobs_view(), rs, a, u) && (match r {
                        Ok(x) => x@ == a && self.manager().ledger() == crate::executor_manager::after_cancel(
                            upsert_seq(old(self).manager().ledger(), crate::executor_manager::registered_slots(reg.id, slots, true)),
                            u,
                        ),
                        Err(_) => self.manager().ledger() == upsert_seq(
                            old(self).manager().ledger(),
                            crate::executor_manager::registered_slots(reg.id, slots, true),
                        ),
                    });
                assert(fill_seq(old(self).jobs_view(), self.jobs_view(), rs, a, u));
            }
            r
        } else {
            Ok(Vec::new())
        }
    }

    /// Record a heartbeat of `executor_id` at `now_secs`. The executor is never asked to
    /// register again.
    pub fn heart_beat_from_executor(&mut self, executor_id: String, state: Option<ExecutorState>, now_secs: u64) -> (r: bool)
        requires
            old(self).wf(),
        ensures
            final(self).wf(),
            final(self).jobs_view() == old(self).jobs_view(),
            final(self).policy() == old(self).policy(),
            final(self).manager().heartbeat_map() == crate::executor_manager::saved_heartbeats(
                old(self).manager().heartbeat_map(),
                (ExecutorHeartbeat { executor_id, timestamp: now_secs, state }),
            ),
            !r,
    {
        self.executor_manager.save_executor_heartbeat(ExecutorHeartbeat { executor_id, timestamp: now_secs, state });
        false
    }

    /// An executor polls for work at `now_secs`: its metadata and a heartbeat are saved, the
    /// statuses it reports are applied, and when it can take a task it is handed one, if any
    /// running job has one. Refused with `FailedPrecondition` under push scheduling, and with
    /// `InvalidArgument` when the registration has no specification; then nothing changes.
    pub fn poll_work(
        &mut self,
        registration: ExecutorRegistration,
        remote_host: String,
        can_accept_task: bool,
        statuses: Vec<JobTaskStatus>,
        now_secs: u64,
    ) -> (r: Result<Option<TaskAssignment>, SchedulerError>)
        requires
            old(self).wf(),
        ensures
            final(self).wf(),
            final(self).policy() == old(self).policy(),
            final(self).sessions_map() == old(self).sessions_map(),
            jobs_advance(old(self).jobs_view(), final(self).jobs_view()),
            r is Err ==> final(self).jobs_view() == old(self).jobs_view() && final(self).manager() == old(self).manager()
                && final(self).events() == old(self).events(),
            old(self).policy() == TaskSchedulingPolicy::PushStaged ==> r == Err::<
                Option<TaskAssignment>,
                SchedulerError,
            >(SchedulerError::FailedPrecondition),
            old(self).policy() == TaskSchedulingPolicy::PullStaged && registration.specification is None ==> r
                == Err::<Option<TaskAssignment>, SchedulerError>(SchedulerError::InvalidArgument),
            old(self).policy() == TaskSchedulingPolicy::PullStaged && registration.specification is Some ==> r is Ok,
            r is Ok ==> {
                let meta = old(self).manager().metadata_map().insert(
                    registration.id@,
                    metadata_of(registration, remote_host),
                );
                &&& final(self).manager().metadata_map() == meta
                &&& final(self).manager().heartbeat_map() == crate::executor_manager::saved_heartbeats(
                    old(self).manager().heartbeat_map(),
                    (ExecutorHeartbeat { executor_id: registration.id, timestamp: now_secs, state: None }),
                )
                &&& final(self).manager().ledger() == old(self).manager().ledger()
                &&& exists|jm: Seq<Job>|
                    #[trigger] statuses_step(
                        old(self).jobs_view(),
                        old(self).events(),
                        jm,
                        final(self).events(),
                        statuses@,
                        meta,
                        now_secs,
                    ) && if can_accept_task {
                        took_task(jm, final(self).jobs_view(), registration.id, None, r->Ok_0)
                    } else {
                        final(self).jobs_view() == jm && r->Ok_0 is None
                    }
            },
    {
        let ghost reg = registration;
        if self.config.is_push_staged_scheduling() {
            return Err(SchedulerError::FailedPrecondition);
        }
        let metadata = match Self::metadata_from(registration, remote_host) {
            Ok(m) => m,
            Err(e) => {
                return Err(e);
            },
        };
        let id = metadata.id.clone();
        self.executor_manager.save_executor_metadata(metadata);
        self.executor_manager.save_executor_heartbeat(ExecutorHeartbeat { executor_id: id.clone(), timestamp: now_secs, state: None });
        let ghost jobs0 = self.jobs@;
        let ghost ev0 = self.recorded@;
        self.update_task_statuses(&id, statuses, now_secs);
        let ghost jm = self.jobs@;
        let ghost em = self.recorded@;
        let task = if can_accept_task {
            self.next_task_for(&id, &None)
        } else {
            None
        };
        proof {
            assert(id == reg.id);
            let meta = old(self).manager().metadata_map().insert(reg.id@, metadata_of(reg, remote_host));
            assert(self.executor_manager.metadata_map() == meta);
            assert(jobs0 == old(self).jobs_view());
            assert(ev0 == old(self).events());
            assert(em == self.events());
            assert(statuses_step(old(self).jobs_view(), old(self).events(), jm, self.events(), statuses@, meta, now_secs));
            if can_accept_task {
                assert(took_task(jm, self.jobs_view(), reg.id, None, task));
            } else {
                assert(self.jobs_view() == jm);
            }
        }
        Ok(task)
    }

    /// Cancel job `job_id` if it is still queued or running, and record the cancellation;
    /// tells whether it was.
    pub fn cancel_job(&mut self, job_id: &String) -> (r: bool)
        requires
            old(self).wf(),
        ensures
            final(self).wf(),
            final(self).policy() == old(self).policy(),
            final(self).manager() == old(self).manager(),
            r == (keyed_map(old(self).jobs_view()).contains_key(job_id@) && (keyed_map(old(self).jobs_view())[job_id@].status
                == JobStatus::Running || keyed_map(old(self).jobs_view())[job_id@].status == JobStatus::Queued)),
            r ==> keyed_map(final(self).jobs_view()).contains_key(job_id@) && keyed_map(final(self).jobs_view())[job_id@].status
                == JobStatus::Cancelled,
            !r ==> final(self).jobs_view() == old(self).jobs_view() && final(self).events() == old(self).events(),
            r ==> final(self).events() == old(self).events().push(
                MetricEvent::Cancelled(keyed_map(old(self).jobs_view())[job_id@].job_id),
            ),
            final(self).sessions_map() == old(self).sessions_map(),
    {
        let i = match find_key(&self.jobs, job_id) {
            Some(i) => i,
            None => {
                return false;
            },
        };
        proof {
            lemma_keyed_at(self.jobs@, i as int);
        }
        let ghost before = self.jobs@;
        let mut job = self.jobs.remove(i);
        let cancelled = match job.graph {
            Some(mut graph) => {
                let c = graph.cancel();
                job.status = job_status_of(graph.status());
                job.graph = Some(graph);
                c
            },
            None => {
                if job.status == JobStatus::Queued {
                    job.status = JobStatus::Cancelled;
                    true
                } else {
                    false
                }
            },
        };
        if cancelled {
            self.metrics.record_cancelled(job.job_id.as_str());
            proof {
                self.recorded = Ghost(self.recorded@.push(MetricEvent::Cancelled(job.job_id)));
            }
        }
        self.jobs.insert(i, job);
        proof {
            assert(self.jobs@ =~= before.update(i as int, job));
            crate::keyed::lemma_keyed_update(before, i as int, job);
            assert forall|a: int| 0 <= a < self.jobs@.len() implies job_ok(#[trigger] self.jobs@[a]) by {
                if a != i {
                    assert(self.jobs@[a] == before[a]);
                }
            }
            if !cancelled {
                assert(job == before[i as int]);
                assert(self.jobs@ =~= before);
            }
            lemma_keyed_at(self.jobs@, i as int);
        }
        cancelled
    }

    /// Remove the executors whose heartbeat expired at `now_secs`, each once, and fail their
    /// running tasks retryably in every job. Returns the ids removed, so that the loss of
    /// each can be announced once.
    pub fn expire_dead_executors(&mut self, now_secs: u64, reason: &String) -> (r: Vec<String>)
        requires
            old(self).wf(),
        ensures
            final(self).wf(),
            final(self).policy() == old(self).policy(),
            final(self).sessions_map() == old(self).sessions_map(),
            jobs_advance(old(self).jobs_view(), final(self).jobs_view()),
            crate::executor_manager::distinct(crate::executor_manager::id_views(r@)),
            forall|id: Seq<char>|
                #![trigger crate::executor_manager::id_views(r@).contains(id)]
                crate::executor_manager::id_views(r@).contains(id) <==> old(self).manager().heartbeat_map().contains_key(
                    id,
                ) && crate::executor_manager::expired(
                    old(self).manager().heartbeat_map()[id],
                    now_secs,
                    DEFAULT_EXECUTOR_TIMEOUT_SECONDS,
                ),
            final(self).manager().heartbeat_map() == crate::executor_manager::without(
                old(self).manager().heartbeat_map(),
                crate::executor_manager::id_views(r@),
            ),
            final(self).manager().metadata_map() == crate::executor_manager::without(
                old(self).manager().metadata_map(),
                crate::executor_manager::id_views(r@),
            ),
            keyed_map(final(self).manager().ledger()) == crate::executor_manager::without(
                keyed_map(old(self).manager().ledger()),
                crate::executor_manager::id_views(r@),
            ),
            lost_seq(old(self).jobs_view(), old(self).events(), final(self).jobs_view(), final(self).events(), r@, *reason, now_secs),
    {
        let lost = self.executor_manager.expire_dead_executors(now_secs, DEFAULT_EXECUTOR_TIMEOUT_SECONDS);
        let ghost m1 = self.executor_manager;
        let mut k: usize = 0;
        proof {
            assert(lost@.take(0) =~= Seq::<String>::empty());
        }
        while k < lost.len()
            invariant
                self.wf(),
                self.config.scheduling_policy == old(self).config.scheduling_policy,
                self.sessions_map() == old(self).sessions_map(),
                self.executor_manager == m1,
                jobs_advance(old(self).jobs_view(), self.jobs@),
                0 <= k <= lost@.len(),
                lost_seq(old(self).jobs_view(), old(self).events(), self.jobs@, self.recorded@, lost@.take(k as int), *reason, now_secs),
            decreases lost@.len() - k,
        {
            let ghost before = self.jobs@;
            let ghost ev_before = self.recorded@;
            self.lose_executor_tasks(&lost[k], reason, now_secs);
            proof {
                lemma_jobs_advance_trans(old(self).jobs_view(), before, self.jobs@);
                assert(lost@.take(k as int + 1) =~= lost@.take(k as int).push(lost@[k as int]));
                lemma_lost_seq_push(
                    old(self).jobs_view(),
                    old(self).events(),
                    before,
                    ev_before,
                    self.jobs@,
                    self.recorded@,
                    lost@.take(k as int),
                    lost@[k as int],
                    *reason,
                    now_secs,
                );
            }
            k = k + 1;
        }
        proof {
            assert(lost@.take(k as int) =~= lost@);
        }
        lost
    }

    /// Hand reservations back to the ledger, as `ExecutorManager::cancel_reservations` does.
    pub fn release_slots(&mut self, reservations: Vec<ExecutorReservation>) -> (r: Result<(), SchedulerError>)
        requires
            old(self).wf(),
        ensures
            final(self).wf(),
            final(self).jobs_view() == old(self).jobs_view(),
            final(self).policy() == old(self).policy(),
            r is Ok ==> final(self).manager().ledger() == crate::executor_manager::after_cancel(
                old(self).manager().ledger(),
                reservations@,
            ),
            r is Err ==> final(self).manager().ledger() == old(self).manager().ledger(),
            final(self).events() == old(self).events(),
            final(self).sessions_map() == old(self).sessions_map(),
            final(self).slots_policy() == old(self).slots_policy(),
            final(self).manager().metadata_map() == old(self).manager().metadata_map(),
            final(self).manager().heartbeat_map() == old(self).manager().heartbeat_map(),
    {
        self.executor_manager.cancel_reservations(reservations)
    }
    /// Save a session under `session_id` with `settings`, in place of one with that id.
    pub fn update_session(&mut self, session_id: String, settings: Vec<KeyValuePair>)
        requires
            old(self).wf(),
        ensures
            final(self).wf(),
            final(self).sessions_map() == old(self).sessions_map().insert(
                session_id@,
                (Session { session_id, settings }),
            ),
            final(self).jobs_view() == old(self).jobs_view(),
            final(self).manager() == old(self).manager(),
            final(self).policy() == old(self).policy(),
    {
        crate::keyed::upsert(&mut self.sessions, Session { session_id, settings });
    }

    /// The settings of session `session_id`; `NotFound` when there is none.
    pub fn get_session(&self, session_id: &String) -> (r: Result<&Vec<KeyValuePair>, SchedulerError>)
        requires
            self.wf(),
        ensures
            match r {
                Ok(s) => self.sessions_map().contains_key(session_id@) && *s == self.sessions_map()[session_id@].settings,
                Err(e) => !self.sessions_map().contains_key(session_id@) && e == SchedulerError::NotFound,
            },
    {
        match find_key(&self.sessions, session_id) {
            Some(i) => {
                proof {
                    lemma_keyed_at(self.sessions@, i as int);
                }
                Ok(&self.sessions[i].settings)
            },
            None => Err(SchedulerError::NotFound),
        }
    }

    /// A client's request at `now`. With a query, the job is queued, waiting to be planned,
    /// in the session the request names (its settings updated) or in a new session
    /// `fresh_session_id`, as job `optional_job_id` or else `fresh_job_id`; the job and session
    /// ids are returned, and a job id already in use is refused with `Conflict`. Without a
    /// query, session or job id, a new session is opened and the job id returned is `NA`. Any
    /// other request is refused with `Internal`, and nothing changes.
    pub fn execute_query(
        &mut self,
        params: ExecuteQueryParams,
        fresh_session_id: String,
        fresh_job_id: String,
        now: u64,
    ) -> (r: Result<(String, String), SchedulerError>)
        requires
            old(self).wf(),
        ensures
            final(self).wf(),
            final(self).policy() == old(self).policy(),
            final(self).manager() == old(self).manager(),
            ({
                let session = match params.optional_session_id {
                    Some(s) => s,
                    None => fresh_session_id,
                };
                let job = match params.optional_job_id {
                    Some(j) => j,
                    None => fresh_job_id,
                };
                &&& params.query is Some ==> (r is Ok <==> !has_key(old(self).jobs_view(), job@))
                &&& params.query is Some && r is Err ==> r == Err::<(String, String), SchedulerError>(
                    SchedulerError::Conflict,
                ) && final(self).jobs_view() == old(self).jobs_view()
                    && final(self).sessions_map() == old(self).sessions_map()
                &&& params.query is Some && r is Ok ==> r->Ok_0.0 == job && r->Ok_0.1 == session
                    && final(self).sessions_map() == old(self).sessions_map().insert(
                    session@,
                    (Session { session_id: session, settings: params.settings }),
                ) && keyed_map(final(self).jobs_view()).contains_key(job@)
                    && keyed_map(final(self).jobs_view()).remove(job@) == keyed_map(old(self).jobs_view())
                    && keyed_map(final(self).jobs_view())[job@].status == JobStatus::Queued
                    && keyed_map(final(self).jobs_view())[job@].queued_at == now
                    && keyed_map(final(self).jobs_view())[job@].graph is None
                &&& params.query is None && params.optional_session_id is None && params.optional_job_id is None ==> r
                    is Ok && r->Ok_0.0@ == seq!['N', 'A'] && r->Ok_0.1 == fresh_session_id
                    && final(self).sessions_map() == old(self).sessions_map().insert(
                    fresh_session_id@,
                    (Session { session_id: fresh_session_id, settings: params.settings }),
                ) && final(self).jobs_view() == old(self).jobs_view()
                &&& params.query is None && (params.optional_session_id is Some || params.optional_job_id is Some)
                    ==> r == Err::<(String, String), SchedulerError>(SchedulerError::Internal)
                    && final(self).jobs_view() == old(self).jobs_view()
            }),
    {
        let ExecuteQueryParams { query, settings, optional_session_id, optional_job_id } = params;
        match query {
            Some(_) => {
                let job_id = match optional_job_id {
                    Some(j) => j,
                    None => fresh_job_id,
                };
                if find_key(&self.jobs, &job_id).is_some() {
                    return Err(SchedulerError::Conflict);
                }
                let session_id = match optional_session_id {
                    Some(s) => s,
                    None => fresh_session_id,
                };
                self.update_session(session_id.clone(), settings);
                let ghost before = self.jobs@;
                match self.accept_job(job_id.clone(), String::new(), now) {
                    Ok(()) => {
                        proof {
                            assert(!has_key(before, job_id@));
                            assert(!keyed_map(before).contains_key(job_id@));
                            assert(keyed_map(self.jobs@).remove(job_id@) =~= keyed_map(before));
                        }
                        Ok((job_id, session_id))
                    },
                    Err(e) => Err(e),
                }
            },
            None => {
                if optional_session_id.is_some() || optional_job_id.is_some() {
                    return Err(SchedulerError::Internal);
                }
                self.update_session(fresh_session_id.clone(), settings);
                let na = "NA".to_owned();
                proof {
                    reveal_strlit("NA");
                    assert(na@ =~= seq!['N', 'A']);
                }
                Ok((na, fresh_session_id))
            },
        }
    }

    /// Fail, retryably, the tasks running on `executor_id` in every job, and record the end
    /// of each job that fails on that account.
    fn lose_executor_tasks(&mut self, executor_id: &String, reason: &String, now_secs: u64)
        requires
            old(self).wf(),
        ensures
            final(self).wf(),
            final(self).policy() == old(self).policy(),
            final(self).slots_policy() == old(self).slots_policy(),
            final(self).manager() == old(self).manager(),
            final(self).sessions_map() == old(self).sessions_map(),
            jobs_advance(old(self).jobs_view(), final(self).jobs_view()),
            lost_everywhere(
                old(self).jobs_view(),
                old(self).events(),
                final(self).jobs_view(),
                final(self).events(),
                executor_id@,
                *reason,
                now_secs,
            ),
    {
        let ghost jobs0 = self.jobs@;
        let ghost ev0 = self.recorded@;
        let n = self.jobs.len();
        let mut i: usize = 0;
        while i < n
            invariant
                self.wf(),
                self.config == old(self).config,
                self.executor_manager == old(self).executor_manager,
                self.sessions == old(self).sessions,
                jobs0 == old(self).jobs_view(),
                ev0 == old(self).events(),
                n == self.jobs@.len(),
                n == jobs0.len(),
                0 <= i <= n,
                jobs_advance(old(self).jobs_view(), self.jobs@),
                forall|q: int| 0 <= q < i ==> #[trigger] lost_job(jobs0[q], self.jobs@[q], executor_id@, *reason),
                forall|q: int| i <= q < n ==> #[trigger] self.jobs@[q] == jobs0[q],
                self.recorded@ == ev0 + lost_events(jobs0, self.jobs@, now_secs, i as int),
            decreases n - i,
        {
            let ghost before = self.jobs@;
            let ghost ev_before = self.recorded@;
            if self.jobs[i].graph.is_some() {
                let mut job = self.jobs.remove(i);
                let mut graph = job.graph.unwrap();
                let ghost g0 = graph;
                let ghost job0 = before[i as int];
                let effect = graph.executor_lost(executor_id, reason);
                job.status = job_status_of(graph.status());
                job.graph = Some(graph);
                match effect {
                    StatusEffect::JobFailed => {
                        self.metrics.record_failed(job.job_id.as_str(), job.queued_at, now_secs);
                        proof {
                            self.recorded = Ghost(self.recorded@.push(MetricEvent::Failed(job.job_id, job.queued_at, now_secs)));
                        }
                    },
                    _ => {},
                }
                self.jobs.insert(i, job);
                proof {
                    assert(self.jobs@ =~= before.update(i as int, job));
                    crate::keyed::lemma_keyed_update(before, i as int, job);
                    assert forall|a: int| 0 <= a < self.jobs@.len() implies job_ok(#[trigger] self.jobs@[a]) by {
                        if a != i {
                            assert(self.jobs@[a] == before[a]);
                        }
                    }
                    assert forall|a: int| 0 <= a < before.len() && a != i implies #[trigger] self.jobs@[a] == before[a] by {}
                    lemma_jobs_advance_trans(old(self).jobs_view(), before, self.jobs@);
                    assert(job == with_graph(job0, graph));
                    assert(job0 == jobs0[i as int]);
                    assert(crate::graph::lost_applied(g0, graph, executor_id@, *reason, effect));
                    assert(lost_job(jobs0[i as int], self.jobs@[i as int], executor_id@, *reason));
                    assert(job0.status == JobStatus::Running <==> !crate::graph::finished(g0.status_view()));
                    lemma_lost_events_frame(jobs0, before, self.jobs@, now_secs, i as int);
                    assert(self.recorded@ =~= ev_before + end_events(job0, graph, now_secs));
                    assert(lost_events(jobs0, self.jobs@, now_secs, i as int + 1) == lost_events(jobs0, self.jobs@, now_secs, i as int) + end_events(job0, graph, now_secs));
                    assert(self.recorded@ =~= ev0 + lost_events(jobs0, self.jobs@, now_secs, i as int + 1));
                }
            } else {
                proof {
                    assert(lost_job(jobs0[i as int], self.jobs@[i as int], executor_id@, *reason));
                    assert(lost_events(jobs0, self.jobs@, now_secs, i as int + 1) =~= lost_events(jobs0, self.jobs@, now_secs, i as int));
                    assert(self.recorded@ =~= ev0 + lost_events(jobs0, self.jobs@, now_secs, i as int + 1));
                }
            }
            i = i + 1;
        }
    }

    /// Remove executor `executor_id` for `reason` at `now_secs`: forget its slots, metadata
    /// and heartbeat, and fail its running tasks retryably. Tells whether it was known.
    pub fn remove_executor(&mut self, executor_id: &String, reason: &String, now_secs: u64) -> (r: bool)
        requires
            old(self).wf(),
        ensures
            final(self).wf(),
            final(self).policy() == old(self).policy(),
            final(self).sessions_map() == old(self).sessions_map(),
            jobs_advance(old(self).jobs_view(), final(self).jobs_view()),
            r == (has_key(old(self).manager().ledger(), executor_id@) || old(self).manager().metadata_map().contains_key(
                executor_id@,
            ) || old(self).manager().heartbeat_map().contains_key(executor_id@)),
            final(self).manager().ledger() == crate::keyed::remove_seq(old(self).manager().ledger(), executor_id@),
            final(self).manager().metadata_map() == old(self).manager().metadata_map().remove(executor_id@),
            final(self).manager().heartbeat_map() == old(self).manager().heartbeat_map().remove(executor_id@),
            lost_everywhere(
                old(self).jobs_view(),
                old(self).events(),
                final(self).jobs_view(),
                final(self).events(),
                executor_id@,
                *reason,
                now_secs,
            ),
    {
        let known = self.executor_manager.remove_executor(executor_id);
        self.lose_executor_tasks(executor_id, reason, now_secs);
        known
    }
    /// Load heartbeats read back from storage at start-up, as
    /// `ExecutorManager::init_executor_heartbeats` does.
    pub fn init_executor_heartbeats(&mut self, heartbeats: Vec<ExecutorHeartbeat>)
        requires
            old(self).wf(),
        ensures
            final(self).wf(),
            final(self).jobs_view() == old(self).jobs_view(),
            final(self).policy() == old(self).policy(),
            forall|i: int|
                0 <= i < heartbeats@.len() ==> final(self).manager().heartbeat_map().contains_key(
                    (#[trigger] heartbeats@[i]).executor_id@,
                ) && final(self).manager().heartbeat_map()[heartbeats@[i].executor_id@].timestamp
                    >= heartbeats@[i].timestamp,
    {
        self.executor_manager.init_executor_heartbeats(heartbeats);
    }
    /// Forget job `job_id`; tells whether it was known.
    pub fn remove_job(&mut self, job_id: &String) -> (r: bool)
        requires
            old(self).wf(),
        ensures
            final(self).wf(),
            final(self).manager() == old(self).manager(),
            final(self).policy() == old(self).policy(),
            final(self).sessions_map() == old(self).sessions_map(),
            r == has_key(old(self).jobs_view(), job_id@),
            keyed_map(final(self).jobs_view()) == keyed_map(old(self).jobs_view()).remove(job_id@),
    {
        let ghost before = self.jobs@;
        let r = crate::keyed::remove_key(&mut self.jobs, job_id);
        proof {
            if has_key(before, job_id@) {
                let j = index_of(before, job_id@);
                assert forall|a: int| 0 <= a < self.jobs@.len() implies job_ok(#[trigger] self.jobs@[a]) by {
                    if a < j {
                        assert(self.jobs@[a] == before[a]);
                    } else {
                        assert(self.jobs@[a] == before[a + 1]);
                    }
                }
            }
        }
        r
    }

    /// The jobs that are queued or running, each once.
    pub fn get_jobs(&self) -> (r: Vec<String>)
        requires
            self.wf(),
        ensures
            crate::executor_manager::distinct(crate::executor_manager::id_views(r@)),
            forall|id: Seq<char>|
                #![trigger crate::executor_manager::id_views(r@).contains(id)]
                crate::executor_manager::id_views(r@).contains(id) <==> keyed_map(self.jobs_view()).contains_key(id)
                    && !job_finished(keyed_map(self.jobs_view())[id].status),
    {
        let ghost s = self.jobs@;
        let ghost m = keyed_map(self.jobs@);
        let mut out: Vec<String> = Vec::new();
        let ghost mut src: Seq<int> = Seq::empty();
        let mut i: usize = 0;
        while i < self.jobs.len()
            invariant
                0 <= i <= s.len(),
                s == self.jobs@,
                m == keyed_map(self.jobs@),
                self.wf(),
                src.len() == out@.len(),
                forall|k: int| 0 <= k < src.len() ==> 0 <= #[trigger] src[k] < i,
                forall|k: int| 0 <= k < src.len() ==> (#[trigger] out@[k])@ == s[src[k]].key(),
                forall|a: int, b: int| 0 <= a < b < src.len() ==> #[trigger] src[a] < #[trigger] src[b],
                forall|q: int|
                    0 <= q < i && !job_finished(s[q].status) ==> exists|k: int| 0 <= k < src.len() && #[trigger] src[k] == q,
                forall|k: int| 0 <= k < src.len() ==> !job_finished(s[#[trigger] src[k]].status),
            decreases s.len() - i,
        {
            let st = self.jobs[i].status;
            let ghost src0 = src;
            if st == JobStatus::Queued || st == JobStatus::Running {
                proof {
                    src = src.push(i as int);
                }
                out.push(self.jobs[i].job_id.clone());
            }
            proof {
                assert forall|q: int| 0 <= q <= i && !job_finished(s[q].status) implies exists|k: int|
                    0 <= k < src.len() && #[trigger] src[k] == q by {
                    if q == i {
                        assert(src[src.len() - 1] == q);
                    } else {
                        let k = choose|k: int| 0 <= k < src0.len() && #[trigger] src0[k] == q;
                        assert(src[k] == q);
                    }
                }
            }
            i = i + 1;
        }
        proof {
            let v = crate::executor_manager::id_views(out@);
            assert forall|a: int, b: int| 0 <= a < v.len() && 0 <= b < v.len() && a != b implies #[trigger] v[a]
                != #[trigger] v[b] by {
                assert(v[a] == s[src[a]].key());
                assert(v[b] == s[src[b]].key());
                assert(src[a] != src[b]);
            }
            assert forall|id: Seq<char>| #![trigger v.contains(id)] v.contains(id) <==> m.contains_key(id) && !job_finished(
                m[id].status,
            ) by {
                if v.contains(id) {
                    let k = choose|k: int| 0 <= k < v.len() && v[k] == id;
                    assert(v[k] == s[src[k]].key());
                    lemma_keyed_at(s, src[k]);
                }
                if m.contains_key(id) && !job_finished(m[id].status) {
                    let q = index_of(s, id);
                    lemma_keyed_at(s, q);
                    let k = choose|k: int| 0 <= k < src.len() && #[trigger] src[k] == q;
                    assert(v[k] == id);
                }
            }
        }
        out
    }
    /// Apply one event at `now_secs` (`now_millis` in milliseconds) and return the tasks to
    /// launch. A planned job is submitted; under push scheduling the free slots are then
    /// offered. Reported statuses are applied in order; under push scheduling each frees a slot
    /// of the reporting executor, and the free slots are offered again. Offered reservations are
    /// filled. A lost executor is removed and its tasks fail retryably. A cancelled job is
    /// cancelled. Only these last three, and pull scheduling, launch nothing new themselves.
    pub fn handle_event(&mut self, event: QueryStageSchedulerEvent, now_secs: u64, now_millis: u64) -> (r: Result<
        Vec<TaskAssignment>,
        SchedulerError,
    >)
        requires
            old(self).wf(),
        ensures
            final(self).wf(),
            final(self).policy() == old(self).policy(),
            final(self).sessions_map() == old(self).sessions_map(),
            match event {
                QueryStageSchedulerEvent::JobQueued { job_id, plan, .. } => {
                    &&& (r == Err::<Vec<TaskAssignment>, SchedulerError>(SchedulerError::Conflict) <==> has_key(
                        old(self).jobs_view(),
                        job_id@,
                    ) && keyed_map(old(self).jobs_view())[job_id@].status != JobStatus::Queued)
                    &&& old(self).policy() == TaskSchedulingPolicy::PullStaged && r is Ok ==> r->Ok_0@.len() == 0
                        && keyed_map(final(self).jobs_view())[job_id@].status == (if plan is Ok && valid_plan(
                        plan->Ok_0@,
                    ) {
                        JobStatus::Running
                    } else {
                        JobStatus::Failed
                    })
                },
                QueryStageSchedulerEvent::TaskUpdating(executor_id, statuses) => {
                    &&& old(self).policy() == TaskSchedulingPolicy::PullStaged ==> r is Ok && r->Ok_0@.len() == 0
                        && final(self).manager() == old(self).manager() && statuses_step(
                        old(self).jobs_view(),
                        old(self).events(),
                        final(self).jobs_view(),
                        final(self).events(),
                        statuses@,
                        old(self).manager().metadata_map(),
                        now_millis,
                    )
                    &&& old(self).policy() == TaskSchedulingPolicy::PushStaged ==> exists|jm: Seq<Job>, em: Seq<MetricEvent>|
                        #[trigger] statuses_step(
                            old(self).jobs_view(),
                            old(self).events(),
                            jm,
                            em,
                            statuses@,
                            old(self).manager().metadata_map(),
                            now_millis,
                        ) && jobs_advance(jm, final(self).jobs_view())
                },
                QueryStageSchedulerEvent::ReservationOffering(reservations) => exists|
                    a: Seq<TaskAssignment>,
                    u: Seq<ExecutorReservation>,
                |
                    #[trigger] fill_seq(old(self).jobs_view(), final(self).jobs_view(), reservations@, a, u) && (match r {
                        Ok(x) => x@ == a && final(self).manager().ledger() == crate::executor_manager::after_cancel(
                            old(self).manager().ledger(),
                            u,
                        ),
                        Err(_) => final(self).manager().ledger() == old(self).manager().ledger(),
                    }),
                QueryStageSchedulerEvent::ExecutorLost(executor_id, _) => {
                    &&& r is Ok && r->Ok_0@.len() == 0
                    &&& final(self).manager().ledger() == crate::keyed::remove_seq(
                        old(self).manager().ledger(),
                        executor_id@,
                    )
                    &&& final(self).manager().metadata_map() == old(self).manager().metadata_map().remove(executor_id@)
                    &&& final(self).manager().heartbeat_map() == old(self).manager().heartbeat_map().remove(executor_id@)
                    &&& exists|reason: String|
                        #[trigger] lost_everywhere(
                            old(self).jobs_view(),
                            old(self).events(),
                            final(self).jobs_view(),
                            final(self).events(),
                            executor_id@,
                            reason,
                            now_secs,
                        )
                },
                QueryStageSchedulerEvent::JobCancel(job_id) => {
                    &&& r is Ok && r->Ok_0@.len() == 0
                    &&& final(self).manager() == old(self).manager()
                    &&& (keyed_map(old(self).jobs_view()).contains_key(job_id@) && (keyed_map(old(self).jobs_view())[job_id@].status
                        == JobStatus::Running || keyed_map(old(self).jobs_view())[job_id@].status == JobStatus::Queued))
                        ==> keyed_map(final(self).jobs_view())[job_id@].status == JobStatus::Cancelled
                },
            },
    {
        match event {
            QueryStageSchedulerEvent::JobQueued { job_id, job_name, plan, queued_at } => {
                match self.submit_job(job_id, job_name, plan, queued_at, now_millis) {
                    Ok(_) => {},
                    Err(e) => {
                        return Err(e);
                    },
                }
                if self.config.is_push_staged_scheduling() {
                    match self.revive_offers(now_secs) {
                        Ok(a) => Ok(a),
                        Err(_) => Err(SchedulerError::Internal),
                    }
                } else {
                    Ok(Vec::new())
                }
            },
            QueryStageSchedulerEvent::TaskUpdating(executor_id, statuses) => {
                let freed = statuses.len();
                self.update_task_statuses(&executor_id, statuses, now_millis);
                if self.config.is_push_staged_scheduling() {
                    let mut slots: Vec<ExecutorReservation> = Vec::new();
                    let mut k: usize = 0;
                    while k < freed
                        invariant
                            0 <= k <= freed,
                        decreases freed - k,
                    {
                        slots.push(ExecutorReservation::new_free(executor_id.clone()));
                        k = k + 1;
                    }
                    match self.release_slots(slots) {
                        Ok(()) => {},
                        Err(_) => {
                            return Err(SchedulerError::Internal);
                        },
                    }
                    let r = self.revive_offers(now_secs);
                    match r {
                        Ok(a) => Ok(a),
                        Err(_) => Err(SchedulerError::Internal),
                    }
                } else {
                    Ok(Vec::new())
                }
            },
            QueryStageSchedulerEvent::ReservationOffering(reservations) => self.offer_reservations(reservations),
            QueryStageSchedulerEvent::ExecutorLost(executor_id, reason) => {
                let reason = match reason {
                    Some(text) => text,
                    None => "executor lost".to_owned(),
                };
                self.remove_executor(&executor_id, &reason, now_secs);
                Ok(Vec::new())
            },
            QueryStageSchedulerEvent::JobCancel(job_id) => {
                self.cancel_job(&job_id);
                Ok(Vec::new())
            },
        }
    }
}

/// Through any sequence of the scheduler's operations, a job that succeeded, failed or was
/// cancelled keeps that status.
pub proof fn finished_jobs_stay_finished(old: Seq<Job>, new: Seq<Job>, i: int)
    requires
        jobs_advance(old, new),
        0 <= i < old.len(),
        job_finished(old[i].status),
    ensures
        new[i].job_id == old[i].job_id,
        new[i].status == old[i].status,
{
}

/// An executor that an expiry removed is no longer among the heartbeats, so a later expiry
/// cannot announce it again unless it sends a heartbeat first.
pub proof fn expired_executor_is_announced_once(
    heartbeats: Map<Seq<char>, ExecutorHeartbeat>,
    ids: Seq<Seq<char>>,
    id: Seq<char>,
)
    requires
        ids.contains(id),
    ensures
        !crate::executor_manager::without(heartbeats, ids).contains_key(id),
{
}

/// Applying the statuses `[x]` is applying `x`.
pub proof fn lemma_statuses_step_single(
    jobs: Seq<Job>,
    ev: Seq<MetricEvent>,
    jobs2: Seq<Job>,
    ev2: Seq<MetricEvent>,
    x: JobTaskStatus,
    meta: Map<Seq<char>, ExecutorMetadata>,
    now: u64,
)
    requires
        statuses_step(jobs, ev, jobs2, ev2, seq![x], meta, now),
    ensures
        status_step(jobs, ev, jobs2, ev2, x, meta, now),
{
    let t = seq![x];
    assert(t.drop_last() =~= Seq::<JobTaskStatus>::empty());
    assert(t.last() == x);
    let (jm, em) = choose|jm: Seq<Job>, em: Seq<MetricEvent>|
        statuses_step(jobs, ev, jm, em, t.drop_last(), meta, now) && #[trigger] status_step(jm, em, jobs2, ev2, t.last(), meta, now);
    assert(jm == jobs && em == ev);
}

/// Jobs keep their ids through any change that `jobs_advance` allows.
pub proof fn lemma_advance_keeps_ids(a: Seq<Job>, b: Seq<Job>, id: Seq<char>)
    requires
        jobs_advance(a, b),
        has_key(a, id),
    ensures
        has_key(b, id),
{
    let i = index_of(a, id);
    assert(b[i].job_id == a[i].job_id);
}

} // verus!
