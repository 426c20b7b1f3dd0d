use vstd::prelude::*;

use crate::keyed::Keyed;

verus! {

/// What an executor offers to the cluster.
#[derive(Debug, Clone, Copy, PartialEq, Eq, Structural)]
pub struct ExecutorSpecification {
    pub task_slots: u32,
}

/// Identity and addresses of an executor, as it registered itself.
#[derive(Debug, PartialEq, Eq)]
pub struct ExecutorMetadata {
    pub id: String,
    pub host: String,
    pub port: u16,
    pub grpc_port: u16,
    pub specification: ExecutorSpecification,
}

impl Clone for ExecutorMetadata {
    fn clone(&self) -> (r: Self)
        ensures
            r == *self,
    {
        ExecutorMetadata {
            id: self.id.clone(),
            host: self.host.clone(),
            port: self.port,
            grpc_port: self.grpc_port,
            specification: self.specification,
        }
    }
}

impl Keyed for ExecutorMetadata {
    open spec fn key(&self) -> Seq<char> {
        self.id@
    }

    fn key_ref(&self) -> (r: &String) {
        &self.id
    }
}

/// The slot ledger of one executor: how many task slots it has, and how many are free.
#[derive(Debug, PartialEq, Eq)]
pub struct ExecutorData {
    pub executor_id: String,
    pub total_task_slots: u32,
    pub available_task_slots: u32,
}

impl Clone for ExecutorData {
    fn clone(&self) -> (r: Self)
        ensures
            r == *self,
    {
        ExecutorData {
            executor_id: self.executor_id.clone(),
            total_task_slots: self.total_task_slots,
            available_task_slots: self.available_task_slots,
        }
    }
}

impl Keyed for ExecutorData {
    open spec fn key(&self) -> Seq<char> {
        self.executor_id@
    }

    fn key_ref(&self) -> (r: &String) {
        &self.executor_id
    }
}

/// Resource state that an executor reports with its heartbeat.
#[derive(Debug, Clone, Copy, PartialEq, Eq, Structural)]
pub struct ExecutorState {
    pub available_memory_size: u64,
}

/// The latest sign of life of an executor, in seconds since the Unix epoch.
#[derive(Debug, PartialEq, Eq)]
pub struct ExecutorHeartbeat {
    pub executor_id: String,
    pub timestamp: u64,
    pub state: Option<ExecutorState>,
}

impl Clone for ExecutorHeartbeat {
    fn clone(&self) -> (r: Self)
        ensures
            r == *self,
    {
        ExecutorHeartbeat {
            executor_id: self.executor_id.clone(),
            timestamp: self.timestamp,
            state: self.state,
        }
    }
}

impl Keyed for ExecutorHeartbeat {
    open spec fn key(&self) -> Seq<char> {
        self.executor_id@
    }

    fn key_ref(&self) -> (r: &String) {
        &self.executor_id
    }
}

} // verus!
