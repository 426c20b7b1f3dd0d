use ballista_scheduler::executor::{Executor, ExecutorRegistration};

fn executor() -> Executor {
    let registration = ExecutorRegistration {
        id: "executor".to_string(),
        port: 0,
        grpc_port: 0,
        specification: None,
        optional_host: None,
    };
    Executor::new(registration, "/tmp/work")
}

#[test]
fn test_task_cancellation() {
    let mut executor = executor();
    let (task, handle) = futures::future::abortable(futures::future::pending::<()>());
    assert!(!executor.cancel_task(&"job-id".to_owned(), 1, 0));
    executor.register_task("job-id".to_owned(), 1, 0, handle);
    let mut cancelled = false;
    for _ in 0..20 {
        if executor.cancel_task(&"job-id".to_owned(), 1, 0) {
            cancelled = true;
            break;
        }
    }
    assert!(cancelled);
    let result = futures::executor::block_on(task);
    assert!(result.is_err());
}

#[test]
fn cancel_of_unregistered_task_is_false() {
    let mut executor = executor();
    assert!(!executor.cancel_task(&"job-id".to_owned(), 1, 0));
    assert_eq!(executor.work_dir(), "/tmp/work");
}

#[test]
fn finished_task_cannot_be_cancelled() {
    let mut executor = executor();
    let (_task, handle) = futures::future::abortable(futures::future::ready(()));
    executor.register_task("job".to_owned(), 2, 3, handle.clone());
    assert!(executor.finish_task(&"job".to_owned(), 2, 3));
    assert!(!executor.cancel_task(&"job".to_owned(), 2, 3));
    assert!(!handle.is_aborted());
}
