use ballista_scheduler::clock::{timestamp_millis, timestamp_secs, to_millis};
use ballista_scheduler::config::{SchedulerConfig, SlotsPolicy, TaskSchedulingPolicy};
use ballista_scheduler::error::SchedulerError;
use ballista_scheduler::graph::TaskDescription;
use ballista_scheduler::graph::TaskOutcome;
use ballista_scheduler::harness::default_task_outcome;
use ballista_scheduler::metrics::{MetricEvent, SchedulerMetricsCollector, TestMetricsCollector};
use ballista_scheduler::reservation::ExecutorReservation;
use ballista_scheduler::slots::{reserve_slots_bias, reserve_slots_round_robin, AvailableTaskSlots};
use ballista_scheduler::storage::{lock_order, Keyspace, WatchEvent};

#[test]
fn reservations_are_free_or_assigned() {
    let r = ExecutorReservation::new_free("e".to_owned());
    assert!(!r.assigned());
    let r = r.assign("job".to_owned());
    assert!(r.assigned());
    assert_eq!(r.executor_id, "e");
    assert_eq!(r.job_id.as_deref(), Some("job"));
    let r = ExecutorReservation::new_assigned("e2".to_owned(), "j2".to_owned());
    assert_eq!((r.executor_id.as_str(), r.job_id.as_deref()), ("e2", Some("j2")));
}

#[test]
fn slots_policy_parses_any_case() {
    assert_eq!("bias".parse::<SlotsPolicy>(), Ok(SlotsPolicy::Bias));
    assert_eq!("Round-Robin".parse::<SlotsPolicy>(), Ok(SlotsPolicy::RoundRobin));
    assert_eq!("ROUND-ROBIN-LOCAL".parse::<SlotsPolicy>(), Ok(SlotsPolicy::RoundRobinLocal));
    assert_eq!("round_robin".parse::<SlotsPolicy>(), Err(SchedulerError::ConfigInvalid));
    assert_eq!(SlotsPolicy::parse(""), Err(SchedulerError::ConfigInvalid));
    assert!(SlotsPolicy::RoundRobinLocal.is_local());
    assert!(!SlotsPolicy::RoundRobin.is_local());
}

#[test]
fn scheduler_config_defaults_and_builders() {
    let c = SchedulerConfig::default();
    assert_eq!(c.scheduling_policy, TaskSchedulingPolicy::PullStaged);
    assert_eq!(c.event_loop_buffer_size, 10000);
    assert_eq!(c.executor_slots_policy, SlotsPolicy::Bias);
    assert_eq!(c.finished_job_data_clean_up_interval_seconds, 300);
    assert_eq!(c.finished_job_state_clean_up_interval_seconds, 3600);
    assert!(c.advertise_flight_result_route_endpoint.is_none());
    assert!(!c.is_push_staged_scheduling());
    let c = c
        .with_scheduler_policy(TaskSchedulingPolicy::PushStaged)
        .with_event_loop_buffer_size(7)
        .with_finished_job_data_clean_up_interval_seconds(0)
        .with_finished_job_state_clean_up_interval_seconds(5)
        .with_advertise_flight_result_route_endpoint(Some("proxy:1".to_owned()));
    assert!(c.is_push_staged_scheduling());
    assert_eq!(c.event_loop_buffer_size, 7);
    assert_eq!(c.finished_job_data_clean_up_interval_seconds, 0);
    assert_eq!(c.finished_job_state_clean_up_interval_seconds, 5);
    assert_eq!(c.advertise_flight_result_route_endpoint.as_deref(), Some("proxy:1"));
}

#[test]
fn millis_are_exact_and_capped() {
    assert_eq!(to_millis(2, 345), 2345);
    assert_eq!(to_millis(0, 0), 0);
    assert_eq!(to_millis(u64::MAX / 1000, 999), u64::MAX);
    assert_eq!(to_millis(u64::MAX, 0), u64::MAX);
    assert_eq!(to_millis(u64::MAX / 1000, 615), u64::MAX / 1000 * 1000 + 615);
}

#[test]
fn clock_reads_after_the_epoch() {
    let s = timestamp_secs();
    let ms = timestamp_millis();
    assert!(s > 1_600_000_000);
    assert!(ms / 1000 >= s);
}

#[test]
fn metric_events_by_job() {
    let mut c = TestMetricsCollector::new();
    c.record_submitted("a", 1, 2);
    c.record_failed("b", 1, 3);
    c.record_completed("a", 1, 4);
    c.record_cancelled("c");
    c.set_pending_tasks_queue_size(9);
    assert_eq!(c.job_events("a"), vec![MetricEvent::Submitted("a".to_owned(), 1, 2), MetricEvent::Completed("a".to_owned(), 1, 4)]);
    assert_eq!(c.job_events("c"), vec![MetricEvent::Cancelled("c".to_owned())]);
    assert!(c.job_events("z").is_empty());
    assert_eq!(MetricEvent::Failed("b".to_owned(), 1, 3).job_id(), "b");
}

#[test]
fn bias_and_round_robin_on_candidates() {
    let cands = || {
        vec![
            AvailableTaskSlots { executor_id: "a".to_owned(), slots: 3 },
            AvailableTaskSlots { executor_id: "b".to_owned(), slots: 0 },
            AvailableTaskSlots { executor_id: "c".to_owned(), slots: 2 },
        ]
    };
    let mut s = cands();
    let r = reserve_slots_bias(&mut s, 4);
    assert_eq!(r.len(), 4);
    assert_eq!((s[0].slots, s[1].slots, s[2].slots), (0, 0, 1));
    let mut s = cands();
    let r = reserve_slots_round_robin(&mut s, 4);
    assert_eq!(r.len(), 4);
    assert_eq!((s[0].slots, s[1].slots, s[2].slots), (1, 0, 0));
    let mut s = cands();
    let r = reserve_slots_round_robin(&mut s, 10);
    assert_eq!(r.len(), 5);
}

#[test]
fn default_runner_succeeds_with_outputs() {
    let task = TaskDescription { stage: 0, partition: 1, task_id: 2, output_partitions: 3 };
    match default_task_outcome("e".to_owned(), task) {
        TaskOutcome::Successful { executor_id, outputs, .. } => {
            assert_eq!(executor_id, "e");
            assert_eq!(outputs.len(), 3);
            assert_eq!(outputs[2].partition_id, 2);
        }
        other => panic!("unexpected {:?}", other),
    }
    let task = TaskDescription { stage: 0, partition: 1, task_id: 2, output_partitions: 0 };
    match default_task_outcome("e".to_owned(), task) {
        TaskOutcome::Successful { outputs, .. } => assert_eq!(outputs.len(), 1),
        other => panic!("unexpected {:?}", other),
    }
}

#[test]
fn watch_event_key() {
    assert_eq!(WatchEvent::Put("k".to_owned(), vec![1]).key(), "k");
    assert_eq!(WatchEvent::Delete("d".to_owned()).key(), "d");
    assert_ne!(Keyspace::Slots, Keyspace::Heartbeats);
}

#[test]
fn locks_are_taken_in_keyspace_then_key_order() {
    let ids = vec![
        (Keyspace::Slots, "b".to_owned()),
        (Keyspace::Executors, "z".to_owned()),
        (Keyspace::Slots, "a".to_owned()),
        (Keyspace::ActiveJobs, "job".to_owned()),
        (Keyspace::ExecutionGraph, "g".to_owned()),
        (Keyspace::Slots, "ab".to_owned()),
    ];
    let ordered = lock_order(ids);
    let expected = vec![
        (Keyspace::ActiveJobs, "job".to_owned()),
        (Keyspace::ExecutionGraph, "g".to_owned()),
        (Keyspace::Executors, "z".to_owned()),
        (Keyspace::Slots, "a".to_owned()),
        (Keyspace::Slots, "ab".to_owned()),
        (Keyspace::Slots, "b".to_owned()),
    ];
    assert_eq!(ordered, expected);
    // The same order as comparing "/<keyspace>/<key>" strings.
    let mut by_text: Vec<String> = expected.iter().map(|(k, key)| format!("/{:?}/{}", k, key)).collect();
    let before = by_text.clone();
    by_text.sort();
    assert_eq!(by_text, before);
    assert!(lock_order(vec![]).is_empty());
}
