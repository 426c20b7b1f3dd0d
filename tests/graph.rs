use ballista_scheduler::error::SchedulerError;
use ballista_scheduler::graph::{
    ExecutionGraph, GraphStatus, ShuffleWritePartition, StagePlan, StatusEffect, TaskOutcome, TaskStatus,
};

fn two_stage(partitions: u32) -> ExecutionGraph {
    ExecutionGraph::new(
        "job".to_owned(),
        vec![
            StagePlan { partitions: 1, output_partitions: partitions, inputs: vec![] },
            StagePlan { partitions, output_partitions: 0, inputs: vec![0] },
        ],
    )
    .unwrap()
}

fn success(stage: usize, partition: u32, task_id: u64, path: &str) -> TaskStatus {
    TaskStatus {
        stage,
        partition,
        task_id,
        outcome: TaskOutcome::Successful {
            executor_id: "e1".to_owned(),
            host: "h1".to_owned(),
            outputs: vec![ShuffleWritePartition { partition_id: 0, path: path.to_owned(), num_batches: 1, num_rows: 2, num_bytes: 3 }],
        },
    }
}

fn failure(stage: usize, partition: u32, task_id: u64, retryable: bool) -> TaskStatus {
    TaskStatus { stage, partition, task_id, outcome: TaskOutcome::Failed { error: "boom".to_owned(), retryable } }
}

#[test]
fn invalid_plans_are_refused() {
    assert_eq!(ExecutionGraph::new("j".to_owned(), vec![]).err(), Some(SchedulerError::InvalidPlan));
    let zero = vec![StagePlan { partitions: 0, output_partitions: 0, inputs: vec![] }];
    assert_eq!(ExecutionGraph::new("j".to_owned(), zero).err(), Some(SchedulerError::InvalidPlan));
    let forward = vec![
        StagePlan { partitions: 1, output_partitions: 1, inputs: vec![1] },
        StagePlan { partitions: 1, output_partitions: 0, inputs: vec![] },
    ];
    assert_eq!(ExecutionGraph::new("j".to_owned(), forward).err(), Some(SchedulerError::InvalidPlan));
}

#[test]
fn downstream_stage_waits_for_upstream() {
    let mut g = two_stage(2);
    let first = g.pop_next_task(&"e1".to_owned()).unwrap();
    assert_eq!((first.stage, first.partition, first.task_id, first.output_partitions), (0, 0, 0, 2));
    assert!(g.pop_next_task(&"e1".to_owned()).is_none());
    assert_eq!(g.update_task_status(success(0, 0, first.task_id, "a")), StatusEffect::Updated);
    let next = g.pop_next_task(&"e2".to_owned()).unwrap();
    assert_eq!((next.stage, next.partition, next.task_id), (1, 0, 1));
}

#[test]
fn whole_job_succeeds_with_outputs() {
    let mut g = two_stage(2);
    let t = g.pop_next_task(&"e1".to_owned()).unwrap();
    g.update_task_status(success(t.stage, t.partition, t.task_id, "scan"));
    let a = g.pop_next_task(&"e1".to_owned()).unwrap();
    let b = g.pop_next_task(&"e1".to_owned()).unwrap();
    assert_eq!(g.update_task_status(success(a.stage, a.partition, a.task_id, "out")), StatusEffect::Updated);
    assert_eq!(g.update_task_status(success(b.stage, b.partition, b.task_id, "out")), StatusEffect::JobSucceeded);
    assert!(g.is_successful());
    let locations = g.output_locations();
    assert_eq!(locations.len(), 2);
    assert!(locations.iter().all(|l| l.stage == 1 && l.output.path == "out" && l.executor_id == "e1" && l.host == "h1"));
}

#[test]
fn repeated_status_is_a_no_op() {
    let mut g = two_stage(1);
    let t = g.pop_next_task(&"e1".to_owned()).unwrap();
    assert_eq!(g.update_task_status(success(t.stage, t.partition, t.task_id, "a")), StatusEffect::Updated);
    assert_eq!(g.update_task_status(success(t.stage, t.partition, t.task_id, "b")), StatusEffect::Ignored);
    assert_eq!(g.update_task_status(failure(t.stage, t.partition, t.task_id, false)), StatusEffect::Ignored);
    assert_eq!(g.status(), GraphStatus::Running);
}

#[test]
fn retryable_failure_requeues_until_attempts_run_out() {
    let mut g = two_stage(1);
    for attempt in 0..3u64 {
        let t = g.pop_next_task(&"e1".to_owned()).unwrap();
        assert_eq!(t.task_id, attempt);
        assert_eq!(g.update_task_status(failure(t.stage, t.partition, t.task_id, true)), StatusEffect::Updated);
    }
    let t = g.pop_next_task(&"e1".to_owned()).unwrap();
    assert_eq!(g.update_task_status(failure(t.stage, t.partition, t.task_id, true)), StatusEffect::JobFailed);
    assert_eq!(g.status(), GraphStatus::Failed);
    assert!(g.pop_next_task(&"e1".to_owned()).is_none());
}

#[test]
fn non_retryable_failure_fails_job_and_it_stays_failed() {
    let mut g = two_stage(2);
    let t = g.pop_next_task(&"e1".to_owned()).unwrap();
    assert_eq!(g.update_task_status(failure(t.stage, t.partition, t.task_id, false)), StatusEffect::JobFailed);
    assert_eq!(g.status(), GraphStatus::Failed);
    assert!(!g.cancel());
    assert_eq!(g.update_task_status(success(t.stage, t.partition, t.task_id, "late")), StatusEffect::Ignored);
    assert_eq!(g.status(), GraphStatus::Failed);
}

#[test]
fn stale_task_id_is_ignored() {
    let mut g = two_stage(1);
    let t = g.pop_next_task(&"e1".to_owned()).unwrap();
    assert_eq!(g.update_task_status(success(t.stage, t.partition, t.task_id + 7, "a")), StatusEffect::Ignored);
    assert_eq!(g.running_tasks().len(), 1);
}

#[test]
fn locality_is_preferred() {
    let mut g = ExecutionGraph::new(
        "job".to_owned(),
        vec![
            StagePlan { partitions: 3, output_partitions: 1, inputs: vec![] },
            StagePlan { partitions: 2, output_partitions: 1, inputs: vec![] },
        ],
    )
    .unwrap();
    // Fewest partitions left wins first: stage 1 has two.
    let a = g.pop_next_task(&"x".to_owned()).unwrap();
    assert_eq!(a.stage, 1);
    let b = g.pop_next_task(&"y".to_owned()).unwrap();
    assert_eq!(b.stage, 1);
    // Executor "x" already runs stage 1, which has nothing waiting; stage 0 it is.
    let c = g.pop_next_task(&"x".to_owned()).unwrap();
    assert_eq!(c.stage, 0);
    // Now "x" runs stage 0: it keeps getting stage 0.
    g.update_task_status(success(1, a.partition, a.task_id, "p"));
    let d = g.pop_next_task(&"x".to_owned()).unwrap();
    assert_eq!(d.stage, 0);
}

#[test]
fn lost_executor_requeues_its_tasks() {
    let mut g = two_stage(1);
    let t = g.pop_next_task(&"e1".to_owned()).unwrap();
    assert_eq!(g.executor_lost(&"e2".to_owned(), &"gone".to_owned()), StatusEffect::Updated);
    assert_eq!(g.running_tasks().len(), 1);
    assert_eq!(g.executor_lost(&"e1".to_owned(), &"gone".to_owned()), StatusEffect::Updated);
    assert!(g.running_tasks().is_empty());
    let again = g.pop_next_task(&"e3".to_owned()).unwrap();
    assert_eq!((again.stage, again.partition), (t.stage, t.partition));
    assert_eq!(again.task_id, t.task_id + 1);
}

#[test]
fn cancelled_job_hands_out_nothing() {
    let mut g = two_stage(1);
    assert!(g.cancel());
    assert_eq!(g.status(), GraphStatus::Cancelled);
    assert!(g.pop_next_task(&"e1".to_owned()).is_none());
}
