use ballista_scheduler::config::{SchedulerConfig, TaskSchedulingPolicy};
use ballista_scheduler::error::SchedulerError;
use ballista_scheduler::executor::ExecutorRegistration;
use ballista_scheduler::executor_info::{ExecutorData, ExecutorMetadata, ExecutorSpecification};
use ballista_scheduler::graph::{ShuffleWritePartition, StagePlan, TaskDescription, TaskOutcome, TaskStatus};
use ballista_scheduler::harness::{default_task_outcome, ExplodingTableProvider, SchedulerTest, TaskRunnerFn};
use ballista_scheduler::metrics::{MetricEvent, TestMetricsCollector};
use ballista_scheduler::reservation::ExecutorReservation;
use ballista_scheduler::scheduler::{
    file_format_for, ExecuteQueryParams, FileFormat, FileType, JobStatus, JobTaskStatus, KeyValuePair, Query,
    QueryStageSchedulerEvent,
    SchedulerServer,
};

const NOW: u64 = 1_000;

/// A two-stage aggregate: one scan partition shuffled into `partitions` outputs, then a
/// final stage with `partitions` partitions.
fn test_plan(partitions: u32) -> Vec<StagePlan> {
    vec![
        StagePlan { partitions: 1, output_partitions: partitions, inputs: vec![] },
        StagePlan { partitions, output_partitions: 0, inputs: vec![0] },
    ]
}

fn has_event(collector: &TestMetricsCollector, job_id: &str, kind: &str) -> bool {
    collector.job_events(job_id).iter().any(|ev| match ev {
        MetricEvent::Submitted(..) => kind == "submitted",
        MetricEvent::Completed(..) => kind == "completed",
        MetricEvent::Cancelled(..) => kind == "cancelled",
        MetricEvent::Failed(..) => kind == "failed",
    })
}

fn virtual_executors(n: usize, slots: u32) -> Vec<(String, u32)> {
    (0..n).map(|i| (format!("virtual-executor-{i}"), slots)).collect()
}

fn registration(id: &str, host: &str, slots: u32) -> ExecutorRegistration {
    ExecutorRegistration {
        id: id.to_owned(),
        port: 0,
        grpc_port: 0,
        specification: Some(ExecutorSpecification { task_slots: slots }),
        optional_host: Some(host.to_owned()),
    }
}

#[test]
fn test_pull_scheduling() {
    let task_slots = 4;
    let mut scheduler = SchedulerServer::new(
        "localhost:50050".to_owned(),
        SchedulerConfig::default().with_scheduler_policy(TaskSchedulingPolicy::PullStaged),
        TestMetricsCollector::new(),
    );
    let per_executor = (task_slots + 1) / 2;
    for (id, host, slots) in [("executor-1", "localhost1", per_executor), ("executor-2", "localhost2", task_slots - per_executor)] {
        let metadata = ExecutorMetadata {
            id: id.to_owned(),
            host: host.to_owned(),
            port: 8080,
            grpc_port: 9090,
            specification: ExecutorSpecification { task_slots: slots },
        };
        let data = ExecutorData { executor_id: id.to_owned(), total_task_slots: slots, available_task_slots: slots };
        scheduler.register_executor(metadata, data, false, NOW, true).expect("registering");
    }
    let job_id = "job".to_owned();
    let status = scheduler.submit_job(job_id.clone(), "".to_owned(), Ok(test_plan(task_slots)), 0, NOW).expect("submitting plan");
    assert_eq!(status, JobStatus::Running);

    let mut pending: Vec<JobTaskStatus> = vec![];
    loop {
        let task = scheduler
            .poll_work(registration("executor-1", "localhost1", per_executor), "127.0.0.1".to_owned(), true, pending, NOW)
            .expect("polling");
        pending = vec![];
        let Some(assignment) = task else { break };
        let task: TaskDescription = assignment.task;
        let num_partitions = if task.output_partitions == 0 { 1 } else { task.output_partitions };
        let partitions = (0..num_partitions)
            .map(|partition_id| ShuffleWritePartition {
                partition_id: partition_id as u64,
                path: "some/path".to_string(),
                num_batches: 1,
                num_rows: 1,
                num_bytes: 1,
            })
            .collect();
        pending.push(JobTaskStatus {
            job_id: assignment.job_id,
            status: TaskStatus {
                stage: task.stage,
                partition: task.partition,
                task_id: task.task_id,
                outcome: TaskOutcome::Successful { executor_id: "executor-1".to_owned(), host: String::new(), outputs: partitions },
            },
        });
    }

    let final_graph = scheduler.job_graph(&job_id).expect("Fail to find graph in the cache");
    assert!(final_graph.is_successful());
    assert_eq!(final_graph.output_locations().len(), 4);
    for output_location in final_graph.output_locations() {
        assert_eq!(output_location.output.path, "some/path".to_owned());
        assert_eq!(output_location.host, "localhost1".to_owned());
    }
}

#[test]
fn test_push_scheduling() {
    let config = SchedulerConfig::default().with_scheduler_policy(TaskSchedulingPolicy::PushStaged);
    let mut test = SchedulerTest::new(config, TestMetricsCollector::new(), virtual_executors(4, 1), NOW);
    let runner = TaskRunnerFn::new(default_task_outcome);
    let status = test.run("job", "", Ok(test_plan(4)), &runner, 100).expect("running plan");
    assert_eq!(status, JobStatus::Successful, "Expected success status but found {:?}", status);
    let graph = test.scheduler().job_graph(&"job".to_owned()).unwrap();
    assert_eq!(graph.output_locations().len(), 4);
    let collector = test.scheduler().metrics_collector();
    assert!(has_event(collector, "job", "submitted"));
    assert!(has_event(collector, "job", "completed"));
}

#[test]
fn test_job_failure() {
    let runner = TaskRunnerFn::new(|_executor_id: String, _task: TaskDescription| TaskOutcome::Failed {
        error: "ERROR".to_string(),
        retryable: false,
    });
    let config = SchedulerConfig::default().with_scheduler_policy(TaskSchedulingPolicy::PushStaged);
    let mut test = SchedulerTest::new(config, TestMetricsCollector::new(), virtual_executors(4, 1), NOW);
    let status = test.run("job", "", Ok(test_plan(4)), &runner, 100).expect("running plan");
    assert!(matches!(status, JobStatus::Failed), "Expected job status to be failed but it was {:?}", status);
    let collector = test.scheduler().metrics_collector();
    assert!(has_event(collector, "job", "submitted"));
    assert!(has_event(collector, "job", "failed"));
    assert!(!has_event(collector, "job", "completed"));
}

#[test]
fn test_planning_failure() {
    let config = SchedulerConfig::default().with_scheduler_policy(TaskSchedulingPolicy::PushStaged);
    let mut test = SchedulerTest::new(config, TestMetricsCollector::new(), virtual_executors(4, 1), NOW);
    let runner = TaskRunnerFn::new(default_task_outcome);
    let plan = ExplodingTableProvider.scan();
    let status = test.run("job", "", plan, &runner, 100).expect("running plan");
    assert!(matches!(status, JobStatus::Failed), "Expected job status to be failed but it was {:?}", status);
    let collector = test.scheduler().metrics_collector();
    assert!(!has_event(collector, "job", "submitted"));
    assert!(has_event(collector, "job", "failed"));
}

#[test]
fn test_poll_work() {
    let mut scheduler = SchedulerServer::new("localhost:50050".to_owned(), SchedulerConfig::default(), TestMetricsCollector::new());
    let exec_meta = || registration("abc", "http://host:8080", 2);
    let response = scheduler.poll_work(exec_meta(), "10.0.0.1".to_owned(), false, vec![], NOW).expect("Received error response");
    assert!(response.is_none());
    let stored_executor = scheduler.executor_manager().get_executor_metadata(&"abc".to_owned()).expect("getting executor");
    assert_eq!(stored_executor.grpc_port, 0);
    assert_eq!(stored_executor.port, 0);
    assert_eq!(stored_executor.specification.task_slots, 2);
    assert_eq!(stored_executor.host, "http://host:8080".to_owned());

    let response = scheduler.poll_work(exec_meta(), "10.0.0.1".to_owned(), true, vec![], NOW).expect("Received error response");
    assert!(response.is_none());
    let stored_executor = scheduler.executor_manager().get_executor_metadata(&"abc".to_owned()).expect("getting executor");
    assert_eq!(stored_executor.grpc_port, 0);
    assert_eq!(stored_executor.port, 0);
    assert_eq!(stored_executor.specification.task_slots, 2);
    assert_eq!(stored_executor.host, "http://host:8080".to_owned());
}

#[test]
fn poll_work_is_refused_under_push_scheduling() {
    let config = SchedulerConfig::default().with_scheduler_policy(TaskSchedulingPolicy::PushStaged);
    let mut scheduler = SchedulerServer::new("s".to_owned(), config, TestMetricsCollector::new());
    let r = scheduler.poll_work(registration("abc", "h", 2), "r".to_owned(), true, vec![], NOW);
    assert_eq!(r, Err(SchedulerError::FailedPrecondition));
}

#[test]
fn poll_work_without_specification_is_refused() {
    let mut scheduler = SchedulerServer::new("s".to_owned(), SchedulerConfig::default(), TestMetricsCollector::new());
    let mut reg = registration("abc", "h", 2);
    reg.specification = None;
    assert_eq!(scheduler.poll_work(reg, "r".to_owned(), true, vec![], NOW), Err(SchedulerError::InvalidArgument));
    assert!(scheduler.executor_manager().get_executor_metadata(&"abc".to_owned()).is_err());
}

#[test]
fn poll_work_uses_remote_host_when_none_is_named() {
    let mut scheduler = SchedulerServer::new("s".to_owned(), SchedulerConfig::default(), TestMetricsCollector::new());
    let mut reg = registration("abc", "h", 2);
    reg.optional_host = None;
    scheduler.poll_work(reg, "10.1.2.3".to_owned(), false, vec![], NOW).unwrap();
    assert_eq!(scheduler.executor_manager().get_executor_metadata(&"abc".to_owned()).unwrap().host, "10.1.2.3");
}

#[test]
fn submitting_a_job_twice_is_a_conflict() {
    let mut scheduler = SchedulerServer::new("s".to_owned(), SchedulerConfig::default(), TestMetricsCollector::new());
    assert_eq!(scheduler.submit_job("j".to_owned(), "".to_owned(), Ok(test_plan(2)), 0, NOW), Ok(JobStatus::Running));
    assert_eq!(scheduler.submit_job("j".to_owned(), "".to_owned(), Ok(test_plan(2)), 0, NOW), Err(SchedulerError::Conflict));
    assert_eq!(scheduler.get_job_status(&"j".to_owned()), Some(JobStatus::Running));
    assert_eq!(scheduler.get_job_status(&"other".to_owned()), None);
}

#[test]
fn invalid_plan_fails_the_job() {
    let mut scheduler = SchedulerServer::new("s".to_owned(), SchedulerConfig::default(), TestMetricsCollector::new());
    let bad = vec![StagePlan { partitions: 1, output_partitions: 0, inputs: vec![0] }];
    assert_eq!(scheduler.submit_job("j".to_owned(), "".to_owned(), Ok(bad), 0, NOW), Ok(JobStatus::Failed));
    assert!(scheduler.job_graph(&"j".to_owned()).is_none());
}

#[test]
fn expired_executor_loses_its_tasks() {
    let config = SchedulerConfig::default().with_scheduler_policy(TaskSchedulingPolicy::PushStaged);
    let mut scheduler = SchedulerServer::new("s".to_owned(), config, TestMetricsCollector::new());
    let assignments = scheduler.register_executor_request(registration("e1", "h1", 1), "r".to_owned(), NOW, true).unwrap();
    assert!(assignments.is_empty());
    scheduler.submit_job("job".to_owned(), "".to_owned(), Ok(test_plan(2)), 0, NOW).unwrap();
    let assignments = scheduler.revive_offers(NOW).unwrap();
    assert_eq!(assignments.len(), 1);
    let lost = scheduler.expire_dead_executors(NOW + 61, &"timed out".to_owned());
    assert_eq!(lost, vec!["e1".to_owned()]);
    assert!(scheduler.expire_dead_executors(NOW + 61, &"timed out".to_owned()).is_empty());
    assert_eq!(scheduler.get_job_status(&"job".to_owned()), Some(JobStatus::Running));
    let graph = scheduler.job_graph(&"job".to_owned()).unwrap();
    assert!(graph.running_tasks().is_empty());
}

#[test]
fn cancelling_a_running_job() {
    let mut scheduler = SchedulerServer::new("s".to_owned(), SchedulerConfig::default(), TestMetricsCollector::new());
    scheduler.submit_job("job".to_owned(), "".to_owned(), Ok(test_plan(2)), 0, NOW).unwrap();
    assert!(scheduler.cancel_job(&"job".to_owned()));
    assert!(!scheduler.cancel_job(&"job".to_owned()));
    assert_eq!(scheduler.get_job_status(&"job".to_owned()), Some(JobStatus::Cancelled));
    assert!(has_event(scheduler.metrics_collector(), "job", "cancelled"));
}

#[test]
fn heartbeat_request_never_asks_to_reregister() {
    let mut scheduler = SchedulerServer::new("s".to_owned(), SchedulerConfig::default(), TestMetricsCollector::new());
    assert!(!scheduler.heart_beat_from_executor("e".to_owned(), None, NOW));
    assert_eq!(scheduler.executor_manager().get_alive_executors(NOW - 1), vec!["e".to_owned()]);
}

fn query_params(session: Option<&str>, job: Option<&str>, with_query: bool) -> ExecuteQueryParams {
    ExecuteQueryParams {
        query: if with_query { Some(Query::Sql("SELECT 1".to_owned())) } else { None },
        settings: vec![KeyValuePair { key: "ballista.shuffle.partitions".to_owned(), value: "4".to_owned() }],
        optional_session_id: session.map(|s| s.to_owned()),
        optional_job_id: job.map(|j| j.to_owned()),
    }
}

#[test]
fn execute_query_queues_the_job() {
    let mut scheduler = SchedulerServer::new("s".to_owned(), SchedulerConfig::default(), TestMetricsCollector::new());
    let (job, session) = scheduler
        .execute_query(query_params(None, None, true), "session-1".to_owned(), "job-1".to_owned(), 7)
        .unwrap();
    assert_eq!((job.as_str(), session.as_str()), ("job-1", "session-1"));
    assert_eq!(scheduler.get_job_status(&job), Some(JobStatus::Queued));
    assert_eq!(scheduler.get_session(&session).unwrap().len(), 1);
    assert_eq!(scheduler.submit_job(job.clone(), "".to_owned(), Ok(test_plan(2)), 0, 9), Ok(JobStatus::Running));
    assert_eq!(scheduler.get_job_status(&job), Some(JobStatus::Running));
    let events = scheduler.metrics_collector().job_events("job-1");
    assert_eq!(events, vec![MetricEvent::Submitted("job-1".to_owned(), 7, 9)]);
}

#[test]
fn execute_query_uses_given_ids() {
    let mut scheduler = SchedulerServer::new("s".to_owned(), SchedulerConfig::default(), TestMetricsCollector::new());
    let r = scheduler.execute_query(query_params(Some("mine"), Some("j"), true), "fresh".to_owned(), "fresh-job".to_owned(), 1);
    assert_eq!(r, Ok(("j".to_owned(), "mine".to_owned())));
    let again = scheduler.execute_query(query_params(None, Some("j"), true), "other".to_owned(), "x".to_owned(), 2);
    assert_eq!(again, Err(SchedulerError::Conflict));
    assert_eq!(scheduler.get_session(&"other".to_owned()).err(), Some(SchedulerError::NotFound));
}

#[test]
fn execute_query_without_query_opens_a_session() {
    let mut scheduler = SchedulerServer::new("s".to_owned(), SchedulerConfig::default(), TestMetricsCollector::new());
    let r = scheduler.execute_query(query_params(None, None, false), "fresh".to_owned(), "job".to_owned(), 1);
    assert_eq!(r, Ok(("NA".to_owned(), "fresh".to_owned())));
    assert!(scheduler.get_session(&"fresh".to_owned()).is_ok());
    assert_eq!(scheduler.get_job_status(&"job".to_owned()), None);
    let bad = scheduler.execute_query(query_params(Some("fresh"), None, false), "f2".to_owned(), "job".to_owned(), 1);
    assert_eq!(bad, Err(SchedulerError::Internal));
}

#[test]
fn queued_job_can_be_cancelled_and_stays_so() {
    let mut scheduler = SchedulerServer::new("s".to_owned(), SchedulerConfig::default(), TestMetricsCollector::new());
    scheduler.accept_job("q".to_owned(), "name".to_owned(), 3).unwrap();
    assert_eq!(scheduler.accept_job("q".to_owned(), "name".to_owned(), 4), Err(SchedulerError::Conflict));
    assert!(scheduler.cancel_job(&"q".to_owned()));
    assert_eq!(scheduler.get_job_status(&"q".to_owned()), Some(JobStatus::Cancelled));
    assert_eq!(scheduler.submit_job("q".to_owned(), "".to_owned(), Ok(test_plan(1)), 0, 5), Err(SchedulerError::Conflict));
    assert_eq!(scheduler.get_job_status(&"q".to_owned()), Some(JobStatus::Cancelled));
}

#[test]
fn only_parquet_metadata_is_read() {
    assert_eq!(file_format_for(FileType::Parquet), Ok(FileFormat::Parquet));
    assert_eq!(file_format_for(FileType::Csv), Err(SchedulerError::Unimplemented));
    assert_eq!(file_format_for(FileType::Json), Err(SchedulerError::Unimplemented));
}

#[test]
fn removed_executor_is_forgotten() {
    let mut scheduler = SchedulerServer::new("s".to_owned(), SchedulerConfig::default(), TestMetricsCollector::new());
    scheduler.poll_work(registration("e", "h", 1), "r".to_owned(), false, vec![], NOW).unwrap();
    assert!(scheduler.remove_executor(&"e".to_owned(), &"gone".to_owned(), NOW));
    assert!(!scheduler.remove_executor(&"e".to_owned(), &"gone".to_owned(), NOW));
    assert!(scheduler.executor_manager().get_executor_metadata(&"e".to_owned()).is_err());
}

#[test]
fn active_jobs_and_removal() {
    let mut scheduler = SchedulerServer::new("s".to_owned(), SchedulerConfig::default(), TestMetricsCollector::new());
    scheduler.accept_job("queued".to_owned(), "".to_owned(), 1).unwrap();
    scheduler.submit_job("running".to_owned(), "".to_owned(), Ok(test_plan(1)), 1, 2).unwrap();
    scheduler.submit_job("failed".to_owned(), "".to_owned(), Err(SchedulerError::InvalidPlan), 1, 2).unwrap();
    let mut jobs = scheduler.get_jobs();
    jobs.sort();
    assert_eq!(jobs, vec!["queued".to_owned(), "running".to_owned()]);
    assert!(scheduler.remove_job(&"running".to_owned()));
    assert!(!scheduler.remove_job(&"running".to_owned()));
    assert_eq!(scheduler.get_job_status(&"running".to_owned()), None);
    assert_eq!(scheduler.get_jobs(), vec!["queued".to_owned()]);
}

#[test]
fn fill_reservations_returns_the_unfilled_ones() {
    let mut scheduler = SchedulerServer::new("s".to_owned(), SchedulerConfig::default(), TestMetricsCollector::new());
    let one_task = vec![StagePlan { partitions: 1, output_partitions: 0, inputs: vec![] }];
    scheduler.submit_job("j".to_owned(), "".to_owned(), Ok(one_task), 0, NOW).unwrap();
    let reservations = vec![
        ExecutorReservation::new_free("e1".to_owned()),
        ExecutorReservation::new_assigned("e2".to_owned(), "j".to_owned()),
    ];
    let (assigned, unfilled) = scheduler.fill_reservations(reservations);
    assert_eq!(assigned.len(), 1);
    assert_eq!(assigned[0].executor_id, "e1");
    assert_eq!(assigned[0].job_id, "j");
    assert_eq!(unfilled.len(), 1);
    assert_eq!(unfilled[0].executor_id, "e2");
}

#[test]
fn handle_event_applies_statuses_and_cancels() {

    let mut scheduler = SchedulerServer::new("s".to_owned(), SchedulerConfig::default(), TestMetricsCollector::new());
    let queued = QueryStageSchedulerEvent::JobQueued {
        job_id: "j".to_owned(),
        job_name: "".to_owned(),
        plan: Ok(vec![StagePlan { partitions: 1, output_partitions: 0, inputs: vec![] }]),
        queued_at: 1,
    };
    assert_eq!(scheduler.handle_event(queued, NOW, 5), Ok(vec![]));
    let task = scheduler.poll_work(registration("e1", "h1", 1), "r".to_owned(), true, vec![], NOW).unwrap().unwrap();
    let done = JobTaskStatus {
        job_id: "j".to_owned(),
        status: TaskStatus {
            stage: task.task.stage,
            partition: task.task.partition,
            task_id: task.task.task_id,
            outcome: TaskOutcome::Failed { error: "ERROR".to_owned(), retryable: false },
        },
    };
    assert_eq!(scheduler.handle_event(QueryStageSchedulerEvent::TaskUpdating("e1".to_owned(), vec![done]), NOW, 6), Ok(vec![]));
    assert_eq!(scheduler.get_job_status(&"j".to_owned()), Some(JobStatus::Failed));
    assert_eq!(scheduler.handle_event(QueryStageSchedulerEvent::JobCancel("j".to_owned()), NOW, 7), Ok(vec![]));
    assert_eq!(scheduler.get_job_status(&"j".to_owned()), Some(JobStatus::Failed));
    assert!(has_event(scheduler.metrics_collector(), "j", "failed"));
    assert_eq!(scheduler.handle_event(QueryStageSchedulerEvent::ExecutorLost("e1".to_owned(), None), NOW, 8), Ok(vec![]));
    assert!(scheduler.executor_manager().get_executor_metadata(&"e1".to_owned()).is_err());
}
