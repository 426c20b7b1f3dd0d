// Scheduler core of a distributed query-execution cluster: executor slot ledger and
// liveness, per-job execution graphs, task dispatch, and executor-side cancellation.

pub mod clock;
pub mod config;
pub mod error;
pub mod executor;
pub mod executor_info;
pub mod executor_manager;
pub mod graph;
pub mod harness;
pub mod keyed;
pub mod ledger_proofs;
pub mod metrics;
pub mod reservation;
pub mod scheduler;
pub mod slots;
pub mod storage;
