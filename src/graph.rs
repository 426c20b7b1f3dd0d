use vstd::prelude::*;

use crate::error::SchedulerError;

verus! {

/// Failed attempts after which a retryable task failure fails the job.
pub const MAX_TASK_ATTEMPTS: u32 = 4;

/// One output file that a task wrote for one output partition.
#[derive(Debug, PartialEq, Eq)]
pub struct ShuffleWritePartition {
    pub partition_id: u64,
    pub path: String,
    pub num_batches: u64,
    pub num_rows: u64,
    pub num_bytes: u64,
}

impl Clone for ShuffleWritePartition {
    fn clone(&self) -> (r: Self)
        ensures
            r == *self,
    {
        ShuffleWritePartition {
            partition_id: self.partition_id,
            path: self.path.clone(),
            num_batches: self.num_batches,
            num_rows: self.num_rows,
            num_bytes: self.num_bytes,
        }
    }
}

/// Where an output of the job can be read, and by whom it was written.
#[derive(Debug, PartialEq, Eq)]
pub struct PartitionLocation {
    pub stage: u64,
    pub partition: u32,
    pub executor_id: String,
    pub host: String,
    pub output: ShuffleWritePartition,
}

/// The state of one partition of a stage.
#[derive(Debug)]
pub enum TaskState {
    Unscheduled,
    Running { executor_id: String, task_id: u64 },
    Completed { executor_id: String, host: String, outputs: Vec<ShuffleWritePartition> },
    Failed { error: String },
}

/// One partition of one stage, with its state and the attempts that failed so far.
#[derive(Debug)]
pub struct StageTask {
    pub stage: usize,
    pub partition: u32,
    pub failures: u32,
    pub state: TaskState,
}

/// The shape of one stage: its partitions, the outputs each of them writes, and the
/// stages whose outputs it reads (by index; always earlier stages).
#[derive(Debug)]
pub struct StagePlan {
    pub partitions: u32,
    pub output_partitions: u32,
    pub inputs: Vec<usize>,
}

/// Where a job stands.
#[derive(Debug, Clone, Copy, PartialEq, Eq, Structural)]
pub enum GraphStatus {
    Running,
    Successful,
    Failed,
    Cancelled,
}

/// A task handed to an executor.
#[derive(Debug, Clone, Copy, PartialEq, Eq, Structural)]
pub struct TaskDescription {
    pub stage: usize,
    pub partition: u32,
    pub task_id: u64,
    pub output_partitions: u32,
}

/// What an executor reports for a task.
#[derive(Debug)]
pub enum TaskOutcome {
    Successful { executor_id: String, host: String, outputs: Vec<ShuffleWritePartition> },
    Failed { error: String, retryable: bool },
}

/// A status report for the task `task_id` on partition `partition` of stage `stage`.
#[derive(Debug)]
pub struct TaskStatus {
    pub stage: usize,
    pub partition: u32,
    pub task_id: u64,
    pub outcome: TaskOutcome,
}

/// What applying a status did to the job.
#[derive(Debug, Clone, Copy, PartialEq, Eq, Structural)]
pub enum StatusEffect {
    /// The status was stale or named no running task: nothing changed.
    Ignored,
    /// The task moved on; the job is still running.
    Updated,
    /// The job's last stage is complete.
    JobSucceeded,
    /// The job failed.
    JobFailed,
}

pub open spec fn finished(s: GraphStatus) -> bool {
    s != GraphStatus::Running
}

/// Every partition of stage `s` is complete.
pub open spec fn stage_done(ts: Seq<StageTask>, s: int) -> bool {
    forall|k: int| 0 <= k < ts.len() && (#[trigger] ts[k]).stage == s ==> ts[k].state is Completed
}

/// Every stage that stage `s` reads from is complete.
pub open spec fn stage_ready(st: Seq<StagePlan>, ts: Seq<StageTask>, s: int) -> bool {
    forall|q: int| 0 <= q < st[s].inputs@.len() ==> stage_done(ts, #[trigger] st[s].inputs@[q] as int)
}

/// Partitions of stage `s` among the first `i` tasks that are not complete.
pub open spec fn remaining(ts: Seq<StageTask>, s: int, i: int) -> nat
    decreases i,
{
    if i <= 0 || i > ts.len() {
        0
    } else {
        remaining(ts, s, i - 1) + if ts[i - 1].stage == s && !(ts[i - 1].state is Completed) {
            1nat
        } else {
            0nat
        }
    }
}

/// Some partition of stage `s` runs on executor `e`.
pub open spec fn runs_on(ts: Seq<StageTask>, s: int, e: Seq<char>) -> bool {
    exists|k: int|
        0 <= k < ts.len() && (#[trigger] ts[k]).stage == s && ts[k].state is Running
            && ts[k].state->Running_executor_id@ == e
}

/// Task `k` waits for an executor and its stage can run.
pub open spec fn schedulable(st: Seq<StagePlan>, ts: Seq<StageTask>, k: int) -> bool {
    0 <= k < ts.len() && ts[k].state is Unscheduled && stage_ready(st, ts, ts[k].stage as int)
}

/// Task `a` is preferred to task `b` for executor `e`: its stage already runs there and the
/// other's does not, or both or neither do and its stage has fewer partitions left.
pub open spec fn preferred(ts: Seq<StageTask>, e: Seq<char>, a: int, b: int) -> bool {
    let la = runs_on(ts, ts[a].stage as int, e);
    let lb = runs_on(ts, ts[b].stage as int, e);
    (la && !lb) || (la == lb && remaining(ts, ts[a].stage as int, ts.len() as int) < remaining(
        ts,
        ts[b].stage as int,
        ts.len() as int,
    ))
}

/// No complete partition changed, and each partition kept its place.
pub open spec fn keeps_completed(old: Seq<StageTask>, new: Seq<StageTask>) -> bool {
    old.len() == new.len() && forall|k: int|
        0 <= k < old.len() ==> (#[trigger] new[k]).stage == old[k].stage && new[k].partition == old[k].partition
            && (old[k].state is Completed ==> new[k] == old[k])
}

/// A finished job stays as it finished.
pub open spec fn keeps_finished(old: GraphStatus, new: GraphStatus) -> bool {
    finished(old) ==> new == old
}

/// Task `k` is the running attempt that status `st` reports on.
pub open spec fn reports_on(ts: Seq<StageTask>, st: TaskStatus, k: int) -> bool {
    0 <= k < ts.len() && ts[k].stage == st.stage && ts[k].partition == st.partition && ts[k].state is Running
        && ts[k].state->Running_task_id == st.task_id
}

/// The attempt count after one more failure.
pub open spec fn one_more(failures: u32) -> u32 {
    if failures < u32::MAX {
        (failures + 1) as u32
    } else {
        failures
    }
}

/// The state that a status leaves its task in: complete on success; waiting again after a
/// retryable failure while attempts are left; failed otherwise.
pub open spec fn next_state(t: StageTask, outcome: TaskOutcome) -> StageTask {
    match outcome {
        TaskOutcome::Successful { executor_id, host, outputs } => StageTask {
            stage: t.stage,
            partition: t.partition,
            failures: t.failures,
            state: TaskState::Completed { executor_id, host, outputs },
        },
        TaskOutcome::Failed { error, retryable } => if retryable && t.failures + 1 < MAX_TASK_ATTEMPTS {
            StageTask {
                stage: t.stage,
                partition: t.partition,
                failures: one_more(t.failures),
                state: TaskState::Unscheduled,
            }
        } else {
            StageTask {
                stage: t.stage,
                partition: t.partition,
                failures: one_more(t.failures),
                state: TaskState::Failed { error },
            }
        },
    }
}

/// The state a task is left in when executor `e` is lost for `reason`: a task running there
/// fails retryably.
pub open spec fn lost_state(t: StageTask, e: Seq<char>, reason: String) -> StageTask {
    if t.state is Running && t.state->Running_executor_id@ == e {
        if t.failures + 1 < MAX_TASK_ATTEMPTS {
            StageTask {
                stage: t.stage,
                partition: t.partition,
                failures: one_more(t.failures),
                state: TaskState::Unscheduled,
            }
        } else {
            StageTask {
                stage: t.stage,
                partition: t.partition,
                failures: one_more(t.failures),
                state: TaskState::Failed { error: reason },
            }
        }
    } else {
        t
    }
}

/// The tasks of a new graph: every partition of every stage, in stage order, waiting.
pub open spec fn initial_tasks(st: Seq<StagePlan>, s: int) -> Seq<StageTask>
    decreases s,
{
    if s <= 0 || s > st.len() {
        Seq::empty()
    } else {
        initial_tasks(st, s - 1) + Seq::new(
            st[s - 1].partitions as nat,
            |p: int| StageTask { stage: (s - 1) as usize, partition: p as u32, failures: 0, state: TaskState::Unscheduled },
        )
    }
}

/// Task `k` belongs to the last stage and is complete.
pub open spec fn final_output(ts: Seq<StageTask>, last: int, k: int) -> bool {
    0 <= k < ts.len() && ts[k].stage == last && ts[k].state is Completed
}

/// Number of outputs of the complete tasks of the last stage among the first `i` tasks.
pub open spec fn output_count(ts: Seq<StageTask>, last: int, i: int) -> nat
    decreases i,
{
    if i <= 0 || i > ts.len() {
        0
    } else {
        output_count(ts, last, i - 1) + if final_output(ts, last, i - 1) {
            ts[i - 1].state->Completed_outputs@.len()
        } else {
            0nat
        }
    }
}

/// Location `loc` is output `j` of task `k`.
pub open spec fn location_of(ts: Seq<StageTask>, k: int, j: int, loc: PartitionLocation) -> bool {
    &&& 0 <= j < ts[k].state->Completed_outputs@.len()
    &&& loc.stage == ts[k].stage as u64
    &&& loc.partition == ts[k].partition
    &&& loc.executor_id == ts[k].state->Completed_executor_id
    &&& loc.host == ts[k].state->Completed_host
    &&& loc.output == ts[k].state->Completed_outputs@[j]
}

/// The shape of a valid plan: at least one stage, every stage with a partition, and every
/// input an earlier stage.
pub open spec fn valid_plan(st: Seq<StagePlan>) -> bool {
    st.len() > 0 && forall|s: int|
        0 <= s < st.len() ==> (#[trigger] st[s]).partitions > 0 && forall|q: int|
            0 <= q < st[s].inputs@.len() ==> #[trigger] st[s].inputs@[q] < s
}

proof fn lemma_remaining_zero(ts: Seq<StageTask>, s: int, i: int)
    requires
        0 <= i <= ts.len(),
    ensures
        remaining(ts, s, i) == 0 <==> forall|k: int|
            0 <= k < i && (#[trigger] ts[k]).stage == s ==> ts[k].state is Completed,
    decreases i,
{
    if i > 0 {
        lemma_remaining_zero(ts, s, i - 1);
    }
}

proof fn lemma_remaining_bound(ts: Seq<StageTask>, s: int, i: int)
    requires
        0 <= i <= ts.len(),
    ensures
        remaining(ts, s, i) <= i,
    decreases i,
{
    if i > 0 {
        lemma_remaining_bound(ts, s, i - 1);
    }
}

/// Where the job stands once task state `t` was reached and the tasks are `ts`.
pub open spec fn status_after(ts: Seq<StageTask>, last: int, t: StageTask) -> GraphStatus {
    if t.state is Failed {
        GraphStatus::Failed
    } else if stage_done(ts, last) {
        GraphStatus::Successful
    } else {
        GraphStatus::Running
    }
}

/// How a job that was running is reported after reaching status `s`.
pub open spec fn effect_of(s: GraphStatus) -> StatusEffect {
    match s {
        GraphStatus::Failed => StatusEffect::JobFailed,
        GraphStatus::Successful => StatusEffect::JobSucceeded,
        _ => StatusEffect::Updated,
    }
}

/// Losing executor `e` fails task `t` for good: it ran there and has no attempt left.
pub open spec fn lost_for_good(t: StageTask, e: Seq<char>) -> bool {
    t.state is Running && t.state->Running_executor_id@ == e && t.failures + 1 >= MAX_TASK_ATTEMPTS
}

/// A task that is running somewhere.
#[derive(Debug)]
pub struct RunningTask {
    pub stage: usize,
    pub partition: u32,
    pub executor_id: String,
    pub task_id: u64,
}

/// Each entry of `r` describes a running task of `ts`.
pub open spec fn all_described(ts: Seq<StageTask>, r: Seq<RunningTask>) -> bool {
    forall|i: int| 0 <= i < r.len() ==> #[trigger] describes_some(ts, r[i])
}

/// `x` describes some running task of `ts`.
pub open spec fn describes_some(ts: Seq<StageTask>, x: RunningTask) -> bool {
    exists|k: int| #[trigger] describes(ts, k, x)
}

/// `r` describes the running task `k`.
pub open spec fn describes(ts: Seq<StageTask>, k: int, r: RunningTask) -> bool {
    &&& 0 <= k < ts.len()
    &&& ts[k].state is Running
    &&& r.stage == ts[k].stage
    &&& r.partition == ts[k].partition
    &&& r.executor_id == ts[k].state->Running_executor_id
    &&& r.task_id == ts[k].state->Running_task_id
}

proof fn lemma_output_count_mono(ts: Seq<StageTask>, last: int, i: int)
    requires
        0 <= i < ts.len(),
    ensures
        output_count(ts, last, i + 1) == output_count(ts, last, i) + if final_output(ts, last, i) {
            ts[i].state->Completed_outputs@.len()
        } else {
            0nat
        },
{
}

proof fn lemma_output_count_upto(ts: Seq<StageTask>, last: int, q: int, k: int)
    requires
        0 <= q < k <= ts.len(),
    ensures
        output_count(ts, last, q) + (if final_output(ts, last, q) {
            ts[q].state->Completed_outputs@.len()
        } else {
            0nat
        }) <= output_count(ts, last, k),
    decreases k - q,
{
    if k > q + 1 {
        lemma_output_count_upto(ts, last, q, k - 1);
    }
}

/// The per-job DAG of stages, with the state of every partition.
pub struct ExecutionGraph {
    job_id: String,
    stages: Vec<StagePlan>,
    tasks: Vec<StageTask>,
    status: GraphStatus,
    next_task_id: u64,
}

impl ExecutionGraph {
    pub closed spec fn job(&self) -> String {
        self.job_id
    }

    pub closed spec fn plan(&self) -> Seq<StagePlan> {
        self.stages@
    }

    pub closed spec fn tasks_view(&self) -> Seq<StageTask> {
        self.tasks@
    }

    pub closed spec fn status_view(&self) -> GraphStatus {
        self.status
    }

    pub closed spec fn next_id(&self) -> u64 {
        self.next_task_id
    }

    pub closed spec fn wf(&self) -> bool {
        valid_plan(self.stages@) && forall|k: int|
            0 <= k < self.tasks@.len() ==> (#[trigger] self.tasks@[k]).stage < self.stages@.len()
    }

    /// The graph of job `job_id` over `stages`, with every partition waiting; `InvalidPlan`
    /// when there is no stage, a stage has no partition, or a stage reads from a stage that
    /// does not come before it.
    pub fn new(job_id: String, stages: Vec<StagePlan>) -> (r: Result<Self, SchedulerError>)
        ensures
            r is Err <==> !valid_plan(stages@),
            r matches Err(e) ==> e == SchedulerError::InvalidPlan,
            r matches Ok(g) ==> g.wf() && g.job() == job_id && g.plan() == stages@ && g.tasks_view()
                == initial_tasks(stages@, stages@.len() as int) && g.status_view() == GraphStatus::Running
                && g.next_id() == 0,
    {
        if stages.len() == 0 {
            return Err(SchedulerError::InvalidPlan);
        }
        let mut s: usize = 0;
        while s < stages.len()
            invariant
                0 <= s <= stages@.len(),
                stages@.len() > 0,
                forall|a: int|
                    0 <= a < s ==> (#[trigger] stages@[a]).partitions > 0 && forall|q: int|
                        0 <= q < stages@[a].inputs@.len() ==> #[trigger] stages@[a].inputs@[q] < a,
            decreases stages@.len() - s,
        {
            if stages[s].partitions == 0 {
                return Err(SchedulerError::InvalidPlan);
            }
            let mut q: usize = 0;
            while q < stages[s].inputs.len()
                invariant
                    0 <= s < stages@.len(),
                    0 <= q <= stages@[s as int].inputs@.len(),
                    forall|b: int| 0 <= b < q ==> #[trigger] stages@[s as int].inputs@[b] < s,
                decreases stages@[s as int].inputs@.len() - q,
            {
                if stages[s].inputs[q] >= s {
                    return Err(SchedulerError::InvalidPlan);
                }
                q = q + 1;
            }
            s = s + 1;
        }
        let mut tasks: Vec<StageTask> = Vec::new();
        let mut s: usize = 0;
        while s < stages.len()
            invariant
                0 <= s <= stages@.len(),
                tasks@ == initial_tasks(stages@, s as int),
                forall|k: int| 0 <= k < tasks@.len() ==> (#[trigger] tasks@[k]).stage < s,
            decreases stages@.len() - s,
        {
            let n = stages[s].partitions;
            let ghost base = tasks@;
            let mut p: u32 = 0;
            while p < n
                invariant
                    0 <= p <= n,
                    s < stages@.len(),
                    n == stages@[s as int].partitions,
                    base == initial_tasks(stages@, s as int),
                    forall|k: int| 0 <= k < base.len() ==> (#[trigger] base[k]).stage < s,
                    tasks@ == base + Seq::new(
                        p as nat,
                        |i: int| StageTask { stage: s, partition: i as u32, failures: 0, state: TaskState::Unscheduled },
                    ),
                decreases n - p,
            {
                tasks.push(StageTask { stage: s, partition: p, failures: 0, state: TaskState::Unscheduled });
                p = p + 1;
                proof {
                    assert(tasks@ =~= base + Seq::new(
                        p as nat,
                        |i: int| StageTask { stage: s, partition: i as u32, failures: 0, state: TaskState::Unscheduled },
                    ));
                }
            }
            proof {
                assert(initial_tasks(stages@, s as int + 1) == initial_tasks(stages@, s as int) + Seq::new(
                    stages@[s as int].partitions as nat,
                    |i: int| StageTask { stage: s, partition: i as u32, failures: 0, state: TaskState::Unscheduled },
                ));
                assert forall|k: int| 0 <= k < tasks@.len() implies (#[trigger] tasks@[k]).stage < s + 1 by {
                    if k >= base.len() {
                        assert(tasks@[k].stage == s);
                    } else {
                        assert(tasks@[k] == base[k]);
                    }
                }
            }
            s = s + 1;
        }
        Ok(ExecutionGraph { job_id, stages, tasks, status: GraphStatus::Running, next_task_id: 0 })
    }

    /// Where the job stands.
    pub fn status(&self) -> (r: GraphStatus)
        ensures
            r == self.status_view(),
    {
        self.status
    }

    /// Whether the job's last stage completed.
    pub fn is_successful(&self) -> (r: bool)
        ensures
            r == (self.status_view() == GraphStatus::Successful),
    {
        self.status == GraphStatus::Successful
    }

    /// The id of the job.
    pub fn job_id(&self) -> (r: &String)
        ensures
            *r == self.job(),
    {
        &self.job_id
    }

    fn stage_remaining(&self, s: usize) -> (r: usize)
        ensures
            r == remaining(self.tasks@, s as int, self.tasks@.len() as int),
    {
        let mut count: usize = 0;
        let mut k: usize = 0;
        while k < self.tasks.len()
            invariant
                0 <= k <= self.tasks@.len(),
                count == remaining(self.tasks@, s as int, k as int),
            decreases self.tasks@.len() - k,
        {
            proof {
                lemma_remaining_bound(self.tasks@, s as int, k as int);
            }
            if self.tasks[k].stage == s {
                match &self.tasks[k].state {
                    TaskState::Completed { .. } => {},
                    _ => {
                        count = count + 1;
                    },
                }
            }
            k = k + 1;
        }
        count
    }

    fn stage_runs_on(&self, s: usize, executor_id: &String) -> (r: bool)
        ensures
            r == runs_on(self.tasks@, s as int, executor_id@),
    {
        let mut k: usize = 0;
        while k < self.tasks.len()
            invariant
                0 <= k <= self.tasks@.len(),
                forall|q: int|
                    0 <= q < k ==> !((#[trigger] self.tasks@[q]).stage == s && self.tasks@[q].state is Running
                        && self.tasks@[q].state->Running_executor_id@ == executor_id@),
            decreases self.tasks@.len() - k,
        {
            if self.tasks[k].stage == s {
                match &self.tasks[k].state {
                    TaskState::Running { executor_id: e, .. } => {
                        if e.eq(executor_id) {
                            return true;
                        }
                    },
                    _ => {},
                }
            }
            k = k + 1;
        }
        false
    }

    fn stage_is_ready(&self, s: usize) -> (r: bool)
        requires
            self.wf(),
            s < self.stages@.len(),
        ensures
            r == stage_ready(self.stages@, self.tasks@, s as int),
    {
        let mut q: usize = 0;
        while q < self.stages[s].inputs.len()
            invariant
                self.wf(),
                s < self.stages@.len(),
                0 <= q <= self.stages@[s as int].inputs@.len(),
                forall|b: int|
                    0 <= b < q ==> stage_done(self.tasks@, #[trigger] self.stages@[s as int].inputs@[b] as int),
            decreases self.stages@[s as int].inputs@.len() - q,
        {
            let input = self.stages[s].inputs[q];
            let left = self.stage_remaining(input);
            proof {
                lemma_remaining_zero(self.tasks@, input as int, self.tasks@.len() as int);
            }
            if left != 0 {
                return false;
            }
            q = q + 1;
        }
        true
    }

    /// Hand one waiting partition of a stage that can run to `executor_id`, as a new task.
    /// Among all such partitions the one taken has a stage that already runs on the executor
    /// if any has, then the fewest partitions left; of equals, the first in stage order.
    /// Nothing is handed out once the job finished.
    pub fn pop_next_task(&mut self, executor_id: &String) -> (r: Option<TaskDescription>)
        requires
            old(self).wf(),
        ensures
            popped(*old(self), *final(self), *executor_id, r),
    {
        if self.status != GraphStatus::Running || self.next_task_id == u64::MAX {
            proof {
                assert(popped(*old(self), *self, *executor_id, None));
            }
            return None;
        }
        let ghost ts = self.tasks@;
        let ghost st = self.stages@;
        let ghost e = executor_id@;
        let mut best: Option<usize> = None;
        let mut best_local = false;
        let mut best_left: usize = 0;
        let mut k: usize = 0;
        while k < self.tasks.len()
            invariant
                self.wf(),
                *self == *old(self),
                self.tasks@ == ts,
                self.stages@ == st,
                executor_id@ == e,
                0 <= k <= ts.len(),
                best is None ==> forall|q: int| 0 <= q < k ==> !schedulable(st, ts, q),
                best matches Some(b) ==> {
                    &&& b < k
                    &&& schedulable(st, ts, b as int)
                    &&& best_local == runs_on(ts, ts[b as int].stage as int, e)
                    &&& best_left == remaining(ts, ts[b as int].stage as int, ts.len() as int)
                    &&& forall|q: int| 0 <= q < k && schedulable(st, ts, q) ==> !#[trigger] preferred(ts, e, q, b as int)
                    &&& forall|q: int| 0 <= q < b && schedulable(st, ts, q) ==> #[trigger] preferred(ts, e, b as int, q)
                },
            decreases ts.len() - k,
        {
            let waiting = match &self.tasks[k].state {
                TaskState::Unscheduled => true,
                _ => false,
            };
            if waiting && self.stage_is_ready(self.tasks[k].stage) {
                let s = self.tasks[k].stage;
                let local = self.stage_runs_on(s, executor_id);
                let left = self.stage_remaining(s);
                let take = match best {
                    None => true,
                    Some(_) => (local && !best_local) || (local == best_local && left < best_left),
                };
                let ghost prev = best;
                if take {
                    best = Some(k);
                    best_local = local;
                    best_left = left;
                }
                proof {
                    assert(schedulable(st, ts, k as int));
                    assert(!preferred(ts, e, k as int, k as int));
                    if let Some(b) = prev {
                        if take {
                            assert(preferred(ts, e, k as int, b as int));
                            assert forall|q: int| 0 <= q < k + 1 && schedulable(st, ts, q) implies !#[trigger] preferred(
                                ts,
                                e,
                                q,
                                k as int,
                            ) by {
                                if q < k {
                                    assert(!preferred(ts, e, q, b as int));
                                }
                            }
                            assert forall|q: int| 0 <= q < k && schedulable(st, ts, q) implies #[trigger] preferred(
                                ts,
                                e,
                                k as int,
                                q,
                            ) by {
                                if q < b {
                                    assert(preferred(ts, e, b as int, q));
                                } else if q > b {
                                    assert(!preferred(ts, e, q, b as int));
                                }
                            }
                        } else {
                            assert(!preferred(ts, e, k as int, b as int));
                        }
                    }
                }
            }
            k = k + 1;
        }
        let result = match best {
            None => {
                proof {
                    assert(!exists|q: int| schedulable(st, ts, q));
                    assert(old(self).plan() == st && old(self).tasks_view() == ts);
                    assert(!exists|q: int| schedulable(old(self).plan(), old(self).tasks_view(), q));
                    assert(!offers_task(*old(self)));
                    assert(*self == *old(self));
                    assert(popped(*old(self), *self, *executor_id, None));
                }
                None
            },
            Some(b) => {
                let id = self.next_task_id;
                let t = TaskDescription {
                    stage: self.tasks[b].stage,
                    partition: self.tasks[b].partition,
                    task_id: id,
                    output_partitions: self.stages[self.tasks[b].stage].output_partitions,
                };
                let running = StageTask {
                    stage: self.tasks[b].stage,
                    partition: self.tasks[b].partition,
                    failures: self.tasks[b].failures,
                    state: TaskState::Running { executor_id: executor_id.clone(), task_id: id },
                };
                self.tasks.set(b, running);
                self.next_task_id = id + 1;
                proof {
                    assert(self.tasks@ == ts.update(b as int, running));
                    assert(schedulable(st, ts, b as int));
                    assert(old(self).plan() == st && old(self).tasks_view() == ts);
                    assert(schedulable(old(self).plan(), old(self).tasks_view(), b as int));
                    assert(pop_choice(*old(self), *self, *executor_id, b as int, t)) by {
                        reveal(pop_choice);
                    }
                    assert(offers_task(*old(self)));
                    assert(keeps_completed(old(self).tasks_view(), self.tasks_view()));
                    assert forall|q: int| 0 <= q < self.tasks@.len() implies (#[trigger] self.tasks@[q]).stage
                        < self.stages@.len() by {
                        if q != b {
                            assert(self.tasks@[q] == ts[q]);
                        }
                    }
                    assert(self.wf());
                    assert(self.plan() == old(self).plan());
                    assert(self.job() == old(self).job());
                    assert(self.status_view() == old(self).status_view());
                    assert(self.next_id() == old(self).next_id() + 1);
                    assert(Some(t)->Some_0 == t);
                    assert(pop_choice(*old(self), *self, *executor_id, b as int, Some(t)->Some_0));
                    assert(popped(*old(self), *self, *executor_id, Some(t)));
                }
                Some(t)
            },
        };
        proof {
            assert(popped(*old(self), *self, *executor_id, result));
        }
        result
    }

    fn failures_after(failures: u32) -> (r: u32)
        ensures
            r == one_more(failures),
    {
        if failures < u32::MAX {
            failures + 1
        } else {
            failures
        }
    }

    /// Apply a status report. Only a report on the running attempt of a partition of a job
    /// that is still running counts; any other is ignored. Success completes the partition,
    /// and the job when its last stage is then complete. A retryable failure puts the partition
    /// back to wait while attempts are left; any other failure fails it and the job.
    pub fn update_task_status(&mut self, status: TaskStatus) -> (r: StatusEffect)
        requires
            old(self).wf(),
        ensures
            status_applied(*old(self), *final(self), status, r),
    {
        let ghost ts = self.tasks@;
        let ghost st0 = status;
        if self.status != GraphStatus::Running {
            return StatusEffect::Ignored;
        }
        let mut k: usize = 0;
        let mut found = false;
        while k < self.tasks.len() && !found
            invariant
                self.tasks@ == ts,
                0 <= k <= ts.len(),
                st0 == status,
                forall|q: int| 0 <= q < k ==> !reports_on(ts, status, q),
                found ==> k < ts.len() && reports_on(ts, status, k as int),
            decreases ts.len() - k + if found { 0int } else { 1int },
        {
            let hit = self.tasks[k].stage == status.stage && self.tasks[k].partition == status.partition
                && match &self.tasks[k].state {
                TaskState::Running { task_id, .. } => *task_id == status.task_id,
                _ => false,
            };
            if hit {
                found = true;
            } else {
                k = k + 1;
            }
        }
        if !found {
            proof {
                assert(!exists|q: int| reports_on(ts, status, q));
            }
            return StatusEffect::Ignored;
        }
        let stage = self.tasks[k].stage;
        let partition = self.tasks[k].partition;
        let failures = self.tasks[k].failures;
        let ghost tk = ts[k as int];
        let next = match status.outcome {
            TaskOutcome::Successful { executor_id, host, outputs } => StageTask {
                stage,
                partition,
                failures,
                state: TaskState::Completed { executor_id, host, outputs },
            },
            TaskOutcome::Failed { error, retryable } => {
                if retryable && (failures as u64) + 1 < MAX_TASK_ATTEMPTS as u64 {
                    StageTask { stage, partition, failures: Self::failures_after(failures), state: TaskState::Unscheduled }
                } else {
                    StageTask { stage, partition, failures: Self::failures_after(failures), state: TaskState::Failed { error } }
                }
            },
        };
        let failed = match &next.state {
            TaskState::Failed { .. } => true,
            _ => false,
        };
        proof {
            assert(next == next_state(tk, st0.outcome));
        }
        self.tasks.set(k, next);
        proof {
            assert forall|q: int| 0 <= q < self.tasks@.len() implies (#[trigger] self.tasks@[q]).stage
                < self.stages@.len() by {
                if q != k {
                    assert(self.tasks@[q] == ts[q]);
                }
            }
        }
        if failed {
            self.status = GraphStatus::Failed;
            return StatusEffect::JobFailed;
        }
        let last = self.stages.len() - 1;
        let left = self.stage_remaining(last);
        proof {
            lemma_remaining_zero(self.tasks@, last as int, self.tasks@.len() as int);
        }
        if left == 0 {
            self.status = GraphStatus::Successful;
            StatusEffect::JobSucceeded
        } else {
            StatusEffect::Updated
        }
    }

    /// Executor `executor_id` was lost for `reason`: every task running there fails retryably,
    /// and the job fails if one of them has no attempt left.
    pub fn executor_lost(&mut self, executor_id: &String, reason: &String) -> (r: StatusEffect)
        requires
            old(self).wf(),
        ensures
            lost_applied(*old(self), *final(self), executor_id@, *reason, r),
    {
        if self.status != GraphStatus::Running {
            return StatusEffect::Ignored;
        }
        let ghost ts = self.tasks@;
        let ghost e = executor_id@;
        let mut any_failed = false;
        let mut k: usize = 0;
        while k < self.tasks.len()
            invariant
                self.wf(),
                self.stages == old(self).stages,
                self.status == old(self).status,
                self.job_id == old(self).job_id,
                self.next_task_id == old(self).next_task_id,
                executor_id@ == e,
                0 <= k <= ts.len(),
                self.tasks@.len() == ts.len(),
                forall|q: int| 0 <= q < k ==> #[trigger] self.tasks@[q] == lost_state(ts[q], e, *reason),
                forall|q: int| k <= q < ts.len() ==> #[trigger] self.tasks@[q] == ts[q],
                any_failed == exists|q: int| 0 <= q < k && #[trigger] lost_for_good(ts[q], e),
            decreases ts.len() - k,
        {
            let hit = match &self.tasks[k].state {
                TaskState::Running { executor_id: on, .. } => on.eq(executor_id),
                _ => false,
            };
            let ghost before = self.tasks@;
            if hit {
                let stage = self.tasks[k].stage;
                let partition = self.tasks[k].partition;
                let failures = self.tasks[k].failures;
                let next = if (failures as u64) + 1 < MAX_TASK_ATTEMPTS as u64 {
                    StageTask { stage, partition, failures: Self::failures_after(failures), state: TaskState::Unscheduled }
                } else {
                    any_failed = true;
                    StageTask {
                        stage,
                        partition,
                        failures: Self::failures_after(failures),
                        state: TaskState::Failed { error: reason.clone() },
                    }
                };
                self.tasks.set(k, next);
            }
            proof {
                assert(self.tasks@[k as int] == lost_state(ts[k as int], e, *reason));
                assert forall|q: int| 0 <= q < self.tasks@.len() && q != k implies #[trigger] self.tasks@[q]
                    == before[q] by {}
                assert forall|q: int| 0 <= q < self.tasks@.len() implies (#[trigger] self.tasks@[q]).stage
                    < self.stages@.len() by {
                    if q != k {
                        assert(self.tasks@[q] == before[q]);
                    }
                }
                if lost_for_good(ts[k as int], e) {
                    assert(any_failed);
                }
                if any_failed && !exists|q: int| 0 <= q < k && #[trigger] lost_for_good(ts[q], e) {
                    assert(lost_for_good(ts[k as int], e));
                }
            }
            k = k + 1;
        }
        proof {
            assert(self.tasks@ =~= Seq::new(ts.len(), |q: int| lost_state(ts[q], e, *reason)));
        }
        if any_failed {
            self.status = GraphStatus::Failed;
            StatusEffect::JobFailed
        } else {
            StatusEffect::Updated
        }
    }

    /// Cancel the job if it is still running; tells whether it was.
    pub fn cancel(&mut self) -> (r: bool)
        ensures
            r == !finished(old(self).status_view()),
            final(self).status_view() == if r {
                GraphStatus::Cancelled
            } else {
                old(self).status_view()
            },
            final(self).tasks_view() == old(self).tasks_view(),
            final(self).plan() == old(self).plan(),
            final(self).job() == old(self).job(),
            final(self).next_id() == old(self).next_id(),
            final(self).wf() == old(self).wf(),
            !r ==> *final(self) == *old(self),
    {
        if self.status == GraphStatus::Running {
            self.status = GraphStatus::Cancelled;
            true
        } else {
            false
        }
    }

    /// The tasks that are running, in task order.
    pub fn running_tasks(&self) -> (r: Vec<RunningTask>)
        ensures
            all_described(self.tasks_view(), r@),
            forall|k: int|
                0 <= k < self.tasks_view().len() && (#[trigger] self.tasks_view()[k]).state is Running
                    ==> exists|i: int| 0 <= i < r@.len() && describes(self.tasks_view(), k, r@[i]),
    {
        let ghost ts = self.tasks@;
        let mut out: Vec<RunningTask> = Vec::new();
        let ghost mut src: Seq<int> = Seq::empty();
        let mut k: usize = 0;
        while k < self.tasks.len()
            invariant
                self.tasks@ == ts,
                0 <= k <= ts.len(),
                src.len() == out@.len(),
                forall|i: int| 0 <= i < out@.len() ==> describes(ts, #[trigger] src[i], out@[i]),
                forall|q: int|
                    0 <= q < k && (#[trigger] ts[q]).state is Running ==> exists|i: int|
                        0 <= i < src.len() && src[i] == q,
            decreases ts.len() - k,
        {
            let ghost src0 = src;
            match &self.tasks[k].state {
                TaskState::Running { executor_id, task_id } => {
                    let t = RunningTask {
                        stage: self.tasks[k].stage,
                        partition: self.tasks[k].partition,
                        executor_id: executor_id.clone(),
                        task_id: *task_id,
                    };
                    out.push(t);
                    proof {
                        src = src.push(k as int);
                    }
                },
                _ => {},
            }
            proof {
                assert forall|q: int| 0 <= q < k + 1 && (#[trigger] ts[q]).state is Running implies exists|i: int|
                    0 <= i < src.len() && src[i] == q by {
                    if q < k {
                        let i = choose|i: int| 0 <= i < src0.len() && src0[i] == q;
                        assert(src[i] == q);
                    } else {
                        assert(src[src.len() - 1] == q);
                    }
                }
            }
            k = k + 1;
        }
        proof {
            assert(self.tasks_view() == ts);
            assert forall|i: int| 0 <= i < out@.len() implies #[trigger] describes_some(self.tasks_view(), out@[i]) by {
                assert(describes(ts, src[i], out@[i]));
                assert(describes(self.tasks_view(), src[i], out@[i]));
            }
            assert(all_described(self.tasks_view(), out@));
            assert forall|q: int| 0 <= q < ts.len() && (#[trigger] ts[q]).state is Running implies exists|i: int|
                0 <= i < out@.len() && describes(ts, q, out@[i]) by {
                let i = choose|i: int| 0 <= i < src.len() && src[i] == q;
                assert(describes(ts, src[i], out@[i]));
            }
        }
        out
    }

    /// The outputs of the job's last stage, task by task: as many as the complete tasks of
    /// that stage wrote, each with the executor that wrote it.
    pub fn output_locations(&self) -> (r: Vec<PartitionLocation>)
        requires
            self.wf(),
        ensures
            r@.len() == output_count(self.tasks_view(), self.plan().len() - 1, self.tasks_view().len() as int),
            forall|k: int, j: int|
                final_output(self.tasks_view(), self.plan().len() - 1, k) && 0 <= j
                    < self.tasks_view()[k].state->Completed_outputs@.len() ==> #[trigger] location_of(
                    self.tasks_view(),
                    k,
                    j,
                    r@[output_count(self.tasks_view(), self.plan().len() - 1, k) + j],
                ),
    {
        let ghost ts = self.tasks@;
        let last = self.stages.len() - 1;
        let mut out: Vec<PartitionLocation> = Vec::new();
        let mut k: usize = 0;
        while k < self.tasks.len()
            invariant
                self.wf(),
                self.tasks@ == ts,
                last == self.stages@.len() - 1,
                0 <= k <= ts.len(),
                out@.len() == output_count(ts, last as int, k as int),
                forall|q: int, j: int|
                    0 <= q < k && final_output(ts, last as int, q) && 0 <= j < ts[q].state->Completed_outputs@.len()
                        ==> #[trigger] location_of(ts, q, j, out@[output_count(ts, last as int, q) + j]),
            decreases ts.len() - k,
        {
            proof {
                lemma_output_count_mono(ts, last as int, k as int);
            }
            if self.tasks[k].stage == last {
                match &self.tasks[k].state {
                    TaskState::Completed { executor_id, host, outputs } => {
                        let ghost base = out@;
                        let mut j: usize = 0;
                        while j < outputs.len()
                            invariant
                                self.tasks@ == ts,
                                0 <= k < ts.len(),
                                final_output(ts, last as int, k as int),
                                ts[k as int].state->Completed_outputs == *outputs,
                                ts[k as int].state->Completed_executor_id == *executor_id,
                                ts[k as int].state->Completed_host == *host,
                                0 <= j <= outputs@.len(),
                                base.len() == output_count(ts, last as int, k as int),
                                out@.len() == base.len() + j,
                                forall|i: int| 0 <= i < base.len() ==> #[trigger] out@[i] == base[i],
                                forall|i: int|
                                    0 <= i < j ==> #[trigger] location_of(ts, k as int, i, out@[base.len() + i]),
                            decreases outputs@.len() - j,
                        {
                            let loc = PartitionLocation {
                                stage: self.tasks[k].stage as u64,
                                partition: self.tasks[k].partition,
                                executor_id: executor_id.clone(),
                                host: host.clone(),
                                output: outputs[j].clone(),
                            };
                            out.push(loc);
                            proof {
                                assert(location_of(ts, k as int, j as int, out@[base.len() + j]));
                            }
                            j = j + 1;
                        }
                        proof {
                            assert forall|q: int, i: int|
                                0 <= q < k + 1 && final_output(ts, last as int, q) && 0 <= i
                                    < ts[q].state->Completed_outputs@.len() implies #[trigger] location_of(
                                ts,
                                q,
                                i,
                                out@[output_count(ts, last as int, q) + i],
                            ) by {
                                if q < k {
                                    lemma_output_count_mono(ts, last as int, q + 1);
                                    lemma_output_count_upto(ts, last as int, q, k as int);
                                    assert(out@[output_count(ts, last as int, q) + i] == base[output_count(
                                        ts,
                                        last as int,
                                        q,
                                    ) + i]);
                                }
                            }
                        }
                    },
                    _ => {},
                }
            }
            k = k + 1;
        }
        out
    }
}

/// The graph offers a task: it runs, has task ids left, and some partition can be scheduled.
pub open spec fn offers_task(g: ExecutionGraph) -> bool {
    !finished(g.status_view()) && g.next_id() != u64::MAX && exists|k: int| schedulable(g.plan(), g.tasks_view(), k)
}

/// Task `k` of `g` is the one handed to executor `e` as `t`, leaving `g2`: it can be
/// scheduled, no other is preferred to it, it is preferred to every earlier one, and it now
/// runs on `e` under the next task id.
#[verifier::opaque]
pub open spec fn pop_choice(g: ExecutionGraph, g2: ExecutionGraph, e: String, k: int, t: TaskDescription) -> bool {
    &&& schedulable(g.plan(), g.tasks_view(), k)
    &&& forall|k2: int|
        schedulable(g.plan(), g.tasks_view(), k2) ==> !#[trigger] preferred(g.tasks_view(), e@, k2, k)
    &&& forall|k2: int|
        0 <= k2 < k && schedulable(g.plan(), g.tasks_view(), k2) ==> #[trigger] preferred(g.tasks_view(), e@, k, k2)
    &&& g2.tasks_view() == g.tasks_view().update(
        k,
        StageTask {
            stage: g.tasks_view()[k].stage,
            partition: g.tasks_view()[k].partition,
            failures: g.tasks_view()[k].failures,
            state: TaskState::Running { executor_id: e, task_id: g.next_id() },
        },
    )
    &&& t == (TaskDescription {
        stage: g.tasks_view()[k].stage,
        partition: g.tasks_view()[k].partition,
        task_id: g.next_id(),
        output_partitions: g.plan()[g.tasks_view()[k].stage as int].output_partitions,
    })
}

/// `pop_next_task` on `g` for executor `e` returned `r` and left `g2`.
pub open spec fn popped(g: ExecutionGraph, g2: ExecutionGraph, e: String, r: Option<TaskDescription>) -> bool {
    &&& g2.wf()
    &&& g2.plan() == g.plan()
    &&& g2.job() == g.job()
    &&& g2.status_view() == g.status_view()
    &&& keeps_completed(g.tasks_view(), g2.tasks_view())
    &&& (r is None <==> !offers_task(g))
    &&& (r is None ==> g2 == g)
    &&& (r is Some ==> exists|k: int| #[trigger] pop_choice(g, g2, e, k, r->Some_0))
    &&& (r is Some ==> g2.next_id() == g.next_id() + 1)
}

/// `update_task_status(st)` on `g` returned `r` and left `g2`.
pub open spec fn status_applied(g: ExecutionGraph, g2: ExecutionGraph, st: TaskStatus, r: StatusEffect) -> bool {
    &&& g2.wf()
    &&& g2.plan() == g.plan()
    &&& g2.job() == g.job()
    &&& g2.next_id() == g.next_id()
    &&& keeps_completed(g.tasks_view(), g2.tasks_view())
    &&& keeps_finished(g.status_view(), g2.status_view())
    &&& ((finished(g.status_view()) || !(exists|k: int| reports_on(g.tasks_view(), st, k))) ==> r
        == StatusEffect::Ignored && g2 == g)
    &&& (!finished(g.status_view()) && (exists|k: int| reports_on(g.tasks_view(), st, k)) ==> exists|k: int|
        {
            &&& #[trigger] reports_on(g.tasks_view(), st, k)
            &&& g2.tasks_view() == g.tasks_view().update(k, next_state(g.tasks_view()[k], st.outcome))
            &&& g2.status_view() == status_after(
                g2.tasks_view(),
                g.plan().len() - 1,
                next_state(g.tasks_view()[k], st.outcome),
            )
            &&& r == effect_of(g2.status_view())
        })
}

/// `executor_lost(e, reason)` on `g` returned `r` and left `g2`.
pub open spec fn lost_applied(g: ExecutionGraph, g2: ExecutionGraph, e: Seq<char>, reason: String, r: StatusEffect) -> bool {
    &&& g2.wf()
    &&& g2.plan() == g.plan()
    &&& g2.job() == g.job()
    &&& g2.next_id() == g.next_id()
    &&& keeps_completed(g.tasks_view(), g2.tasks_view())
    &&& keeps_finished(g.status_view(), g2.status_view())
    &&& (finished(g.status_view()) ==> r == StatusEffect::Ignored && g2 == g)
    &&& (!finished(g.status_view()) ==> g2.tasks_view() == Seq::new(
        g.tasks_view().len(),
        |k: int| lost_state(g.tasks_view()[k], e, reason),
    ) && g2.status_view() == (if exists|k: int|
        0 <= k < g.tasks_view().len() && #[trigger] lost_for_good(g.tasks_view()[k], e) {
        GraphStatus::Failed
    } else {
        GraphStatus::Running
    }) && r == effect_of(g2.status_view()))
}

/// A complete partition stays complete, with the same outputs, through every change of
/// the graph.
pub proof fn completed_partition_stays(old: Seq<StageTask>, new: Seq<StageTask>, k: int)
    requires
        keeps_completed(old, new),
        0 <= k < old.len(),
        old[k].state is Completed,
    ensures
        new[k] == old[k],
        new[k].state is Completed,
{
}

/// A stage whose partitions are all complete stays so through every change of the graph.
pub proof fn successful_stage_stays(old: Seq<StageTask>, new: Seq<StageTask>, s: int)
    requires
        keeps_completed(old, new),
        stage_done(old, s),
    ensures
        stage_done(new, s),
{
    assert forall|k: int| 0 <= k < new.len() && (#[trigger] new[k]).stage == s implies new[k].state is Completed by {
        assert(old[k].stage == s);
    }
}

/// A job that succeeded, failed or was cancelled stays so.
pub proof fn finished_job_stays(old: GraphStatus, new: GraphStatus)
    requires
        finished(old),
        keeps_finished(old, new),
    ensures
        new == old,
{
}

/// A status on a partition that is complete names no running attempt, so it changes nothing.
pub proof fn status_on_completed_is_ignored(ts: Seq<StageTask>, status: TaskStatus)
    requires
        forall|k: int|
            0 <= k < ts.len() && (#[trigger] ts[k]).stage == status.stage && ts[k].partition == status.partition
                ==> ts[k].state is Completed,
    ensures
        !exists|k: int| reports_on(ts, status, k),
{
}

/// Once a success was applied to a partition that appears once in the graph, the same
/// report applied again names no running attempt, so it changes nothing.
pub proof fn repeated_success_is_ignored(ts: Seq<StageTask>, status: TaskStatus, k: int)
    requires
        reports_on(ts, status, k),
        status.outcome is Successful,
        forall|q: int|
            0 <= q < ts.len() && q != k ==> !((#[trigger] ts[q]).stage == ts[k].stage && ts[q].partition
                == ts[k].partition),
    ensures
        !exists|q: int| reports_on(ts.update(k, next_state(ts[k], status.outcome)), status, q),
{
    let t = ts.update(k, next_state(ts[k], status.outcome));
    assert forall|q: int| !reports_on(t, status, q) by {
        if 0 <= q < ts.len() && q != k {
            assert(t[q] == ts[q]);
        }
    }
}

/// A non-retryable failure reported on the running attempt of a partition of a running job
/// fails the job.
pub proof fn nonretryable_failure_fails_job(g: ExecutionGraph, g2: ExecutionGraph, st: TaskStatus, r: StatusEffect)
    requires
        status_applied(g, g2, st, r),
        !finished(g.status_view()),
        exists|k: int| reports_on(g.tasks_view(), st, k),
        st.outcome matches TaskOutcome::Failed { retryable, .. } && !retryable,
    ensures
        g2.status_view() == GraphStatus::Failed,
        r == StatusEffect::JobFailed,
{
}

/// Once the tasks of a lost executor were failed, a status that executor reports late for one
/// of them names no running attempt, so it is ignored.
pub proof fn late_status_from_lost_executor_is_ignored(
    g: ExecutionGraph,
    g2: ExecutionGraph,
    e: Seq<char>,
    reason: String,
    r: StatusEffect,
    st: TaskStatus,
    k: int,
)
    requires
        lost_applied(g, g2, e, reason, r),
        !finished(g.status_view()),
        reports_on(g.tasks_view(), st, k),
        g.tasks_view()[k].state->Running_executor_id@ == e,
    ensures
        !reports_on(g2.tasks_view(), st, k),
{
}

} // verus!
