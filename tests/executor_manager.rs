use ballista_scheduler::error::SchedulerError;
use ballista_scheduler::executor_info::{
    ExecutorData, ExecutorHeartbeat, ExecutorMetadata, ExecutorSpecification,
};
use ballista_scheduler::executor_manager::ExecutorManager;
use ballista_scheduler::reservation::ExecutorReservation;
use ballista_scheduler::slots::TaskDistribution;

const NOW: u64 = 1_000;

fn test_executors(total_executors: usize, slots_per_executor: u32) -> Vec<(ExecutorMetadata, ExecutorData)> {
    let mut result = vec![];
    for i in 0..total_executors {
        result.push((
            ExecutorMetadata {
                id: format!("executor-{}", i),
                host: format!("host-{}", i),
                port: 8080,
                grpc_port: 9090,
                specification: ExecutorSpecification { task_slots: slots_per_executor },
            },
            ExecutorData {
                executor_id: format!("executor-{}", i),
                total_task_slots: slots_per_executor,
                available_task_slots: slots_per_executor,
            },
        ));
    }
    result
}

fn manager_with(total_executors: usize, slots: u32, reserve: bool) -> (ExecutorManager, Vec<ExecutorReservation>) {
    let mut manager = ExecutorManager::new();
    let mut all = vec![];
    for (metadata, data) in test_executors(total_executors, slots) {
        let r = manager.register_executor(metadata, data, reserve, NOW, true).expect("registering");
        all.extend(r);
    }
    (manager, all)
}

fn free_slots(manager: &ExecutorManager, n: usize) -> u32 {
    let mut sum = 0;
    for i in 0..n {
        let id = format!("executor-{}", i);
        sum += manager.slots_of(&id).map(|d| d.available_task_slots).unwrap_or(0);
    }
    sum
}

#[test]
fn test_reserve_and_cancel() {
    let (mut manager, _) = manager_with(10, 4, false);
    let reservations = manager.reserve_slots(40, TaskDistribution::Bias, NOW);
    assert_eq!(reservations.len(), 40);
    manager.cancel_reservations(reservations).expect("cancelling");
    let reservations = manager.reserve_slots(40, TaskDistribution::Bias, NOW);
    assert_eq!(reservations.len(), 40);
}

#[test]
fn test_reserve_partial() {
    let (mut manager, _) = manager_with(10, 4, false);
    let reservations = manager.reserve_slots(30, TaskDistribution::Bias, NOW);
    assert_eq!(reservations.len(), 30);
    let more_reservations = manager.reserve_slots(30, TaskDistribution::Bias, NOW);
    assert_eq!(more_reservations.len(), 10);
    manager.cancel_reservations(reservations).expect("cancelling");
    manager.cancel_reservations(more_reservations).expect("cancelling");
    let reservations = manager.reserve_slots(40, TaskDistribution::Bias, NOW);
    assert_eq!(reservations.len(), 40);
    let more_reservations = manager.reserve_slots(30, TaskDistribution::Bias, NOW);
    assert_eq!(more_reservations.len(), 0);
}

#[test]
fn test_reserve_concurrent() {
    // Twenty requests for all forty slots at once; the lock serialises them as the slot
    // ledger's lock does.
    let (manager, _) = manager_with(10, 4, false);
    let manager = futures::lock::Mutex::new(manager);
    let requests = (0..20).map(|_| async {
        let mut m = manager.lock().await;
        m.reserve_slots(40, TaskDistribution::Bias, NOW)
    });
    let responses = futures::executor::block_on(futures::future::join_all(requests));
    let mut total_reservations: Vec<ExecutorReservation> = vec![];
    for reservations in responses {
        total_reservations.extend(reservations);
    }
    assert_eq!(total_reservations.len(), 40);
}

#[test]
fn test_register_reserve() {
    let mut manager = ExecutorManager::new();
    for (metadata, data) in test_executors(10, 4) {
        let reservations = manager.register_executor(metadata, data, true, NOW, true).expect("registering");
        assert_eq!(reservations.len(), 4);
    }
    let reservations = manager.reserve_slots(1, TaskDistribution::Bias, NOW);
    assert_eq!(reservations.len(), 0);
}

#[test]
fn reserve_zero_takes_nothing() {
    let (mut manager, _) = manager_with(3, 4, false);
    let reservations = manager.reserve_slots(0, TaskDistribution::Bias, NOW);
    assert!(reservations.is_empty());
    assert_eq!(free_slots(&manager, 3), 12);
}

#[test]
fn reserve_exact_short_takes_nothing() {
    let (mut manager, _) = manager_with(3, 4, false);
    let taken = manager.reserve_slots(1, TaskDistribution::Bias, NOW);
    assert_eq!(taken.len(), 1);
    let exact = manager.reserve_slots_exact(12, TaskDistribution::Bias, NOW);
    assert!(exact.is_empty());
    assert_eq!(free_slots(&manager, 3), 11);
    let exact = manager.reserve_slots_exact(11, TaskDistribution::Bias, NOW);
    assert_eq!(exact.len(), 11);
    assert_eq!(free_slots(&manager, 3), 0);
}

#[test]
fn bias_fills_one_executor_first() {
    let (mut manager, _) = manager_with(3, 4, false);
    let reservations = manager.reserve_slots(6, TaskDistribution::Bias, NOW);
    let on_first = reservations.iter().filter(|r| r.executor_id == "executor-0").count();
    let on_second = reservations.iter().filter(|r| r.executor_id == "executor-1").count();
    let on_third = reservations.iter().filter(|r| r.executor_id == "executor-2").count();
    assert_eq!((on_first, on_second, on_third), (4, 2, 0));
    assert!(reservations.iter().all(|r| r.job_id.is_none()));
}

#[test]
fn round_robin_spreads_slots() {
    let (mut manager, _) = manager_with(3, 4, false);
    let reservations = manager.reserve_slots(6, TaskDistribution::RoundRobin, NOW);
    for i in 0..3 {
        let id = format!("executor-{}", i);
        assert_eq!(reservations.iter().filter(|r| r.executor_id == id).count(), 2);
    }
}

#[test]
fn dead_executors_give_no_slots() {
    let (mut manager, _) = manager_with(2, 4, false);
    // Sixty-one seconds later no heartbeat is recent enough.
    let reservations = manager.reserve_slots(8, TaskDistribution::Bias, NOW + 61);
    assert!(reservations.is_empty());
    manager.save_executor_heartbeat(ExecutorHeartbeat { executor_id: "executor-1".to_owned(), timestamp: NOW + 61, state: None });
    let reservations = manager.reserve_slots(8, TaskDistribution::Bias, NOW + 61);
    assert_eq!(reservations.len(), 4);
    assert!(reservations.iter().all(|r| r.executor_id == "executor-1"));
}

#[test]
fn slots_are_conserved() {
    let (mut manager, _) = manager_with(4, 3, false);
    let a = manager.reserve_slots(5, TaskDistribution::Bias, NOW);
    let b = manager.reserve_slots(4, TaskDistribution::RoundRobin, NOW);
    assert_eq!(free_slots(&manager, 4) as usize + a.len() + b.len(), 12);
    manager.cancel_reservations(a).expect("cancelling");
    manager.cancel_reservations(b).expect("cancelling");
    assert_eq!(free_slots(&manager, 4), 12);
    for i in 0..4 {
        let d = manager.slots_of(&format!("executor-{}", i)).unwrap();
        assert_eq!(d.total_task_slots, 3);
        assert_eq!(d.available_task_slots, 3);
    }
}

#[test]
fn cancel_of_unknown_executor_changes_nothing() {
    let (mut manager, _) = manager_with(2, 4, false);
    let taken = manager.reserve_slots(2, TaskDistribution::Bias, NOW);
    let mut back = taken;
    back.push(ExecutorReservation::new_free("nobody".to_owned()));
    assert_eq!(manager.cancel_reservations(back), Err(SchedulerError::NotFound));
    assert_eq!(free_slots(&manager, 2), 6);
}

#[test]
fn cancel_beyond_total_changes_nothing() {
    let (mut manager, _) = manager_with(2, 4, false);
    let taken = manager.reserve_slots(1, TaskDistribution::Bias, NOW);
    let mut back = taken;
    back.push(ExecutorReservation::new_free("executor-0".to_owned()));
    assert_eq!(manager.cancel_reservations(back), Err(SchedulerError::Internal));
    assert_eq!(free_slots(&manager, 2), 7);
}

#[test]
fn unreachable_executor_is_refused() {
    let mut manager = ExecutorManager::new();
    let (metadata, data) = test_executors(1, 4).remove(0);
    assert_eq!(manager.register_executor(metadata, data, false, NOW, false), Err(SchedulerError::Connectivity));
    assert!(manager.slots_of(&"executor-0".to_owned()).is_none());
    assert_eq!(manager.get_executor_metadata(&"executor-0".to_owned()), Err(SchedulerError::NotFound));
}

#[test]
fn metadata_round_trips() {
    let mut manager = ExecutorManager::new();
    let (metadata, _) = test_executors(1, 4).remove(0);
    manager.save_executor_metadata(metadata.clone());
    assert_eq!(manager.get_executor_metadata(&"executor-0".to_owned()), Ok(metadata));
}

#[test]
fn reregistration_is_idempotent() {
    let mut manager = ExecutorManager::new();
    let (metadata, data) = test_executors(1, 4).remove(0);
    manager.register_executor(metadata.clone(), data.clone(), false, NOW, true).unwrap();
    let taken = manager.reserve_slots(3, TaskDistribution::Bias, NOW);
    assert_eq!(taken.len(), 3);
    manager.register_executor(metadata.clone(), data.clone(), false, NOW, true).unwrap();
    assert_eq!(manager.get_executor_metadata(&"executor-0".to_owned()), Ok(metadata.clone()));
    assert_eq!(manager.slots_of(&"executor-0".to_owned()).unwrap().available_task_slots, 4);
    let reservations = manager.register_executor(metadata.clone(), data, true, NOW, true).unwrap();
    assert_eq!(reservations.len(), 4);
    let d = manager.slots_of(&"executor-0".to_owned()).unwrap();
    assert_eq!((d.total_task_slots, d.available_task_slots), (4, 0));
    assert_eq!(manager.get_executor_metadata(&"executor-0".to_owned()), Ok(metadata));
}

#[test]
fn heartbeat_never_goes_back() {
    let mut manager = ExecutorManager::new();
    manager.save_executor_heartbeat(ExecutorHeartbeat { executor_id: "e".to_owned(), timestamp: 50, state: None });
    manager.save_executor_heartbeat(ExecutorHeartbeat { executor_id: "e".to_owned(), timestamp: 40, state: None });
    assert_eq!(manager.get_alive_executors(45), vec!["e".to_owned()]);
    manager.save_executor_heartbeat(ExecutorHeartbeat { executor_id: "e".to_owned(), timestamp: 70, state: None });
    assert_eq!(manager.get_alive_executors(60), vec!["e".to_owned()]);
    assert!(manager.get_alive_executors(70).is_empty());
}

#[test]
fn alive_within_window() {
    let mut manager = ExecutorManager::new();
    manager.save_executor_heartbeat(ExecutorHeartbeat { executor_id: "old".to_owned(), timestamp: 100, state: None });
    manager.save_executor_heartbeat(ExecutorHeartbeat { executor_id: "new".to_owned(), timestamp: 150, state: None });
    assert_eq!(manager.get_alive_executors_within(170, 60), vec!["new".to_owned()]);
    let mut both = manager.get_alive_executors_within(30, 60);
    both.sort();
    assert_eq!(both, vec!["new".to_owned(), "old".to_owned()]);
}

#[test]
fn expiry_removes_each_executor_once() {
    let (mut manager, _) = manager_with(3, 2, false);
    manager.save_executor_heartbeat(ExecutorHeartbeat { executor_id: "executor-2".to_owned(), timestamp: NOW + 100, state: None });
    let mut lost = manager.expire_dead_executors(NOW + 61, 60);
    lost.sort();
    assert_eq!(lost, vec!["executor-0".to_owned(), "executor-1".to_owned()]);
    assert!(manager.expire_dead_executors(NOW + 61, 60).is_empty());
    assert!(manager.slots_of(&"executor-0".to_owned()).is_none());
    assert_eq!(manager.get_executor_metadata(&"executor-1".to_owned()), Err(SchedulerError::NotFound));
    assert!(manager.slots_of(&"executor-2".to_owned()).is_some());
}

#[test]
fn remove_executor_forgets_it() {
    let (mut manager, _) = manager_with(2, 2, false);
    assert!(manager.remove_executor(&"executor-0".to_owned()));
    assert!(!manager.remove_executor(&"executor-0".to_owned()));
    assert!(manager.slots_of(&"executor-0".to_owned()).is_none());
    assert_eq!(manager.get_alive_executors(0), vec!["executor-1".to_owned()]);
}
