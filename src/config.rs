use vstd::prelude::*;

use crate::error::SchedulerError;
use vstd::string::StringSliceAdditionalSpecFns;

verus! {

/// Who starts a task: executors polling for work, or the scheduler pushing it to them.
#[derive(Debug, Clone, Copy, PartialEq, Eq, Structural)]
pub enum TaskSchedulingPolicy {
    PullStaged,
    PushStaged,
}

/// How reservations are spread over the executors' free slots.
#[derive(Debug, Clone, Copy, PartialEq, Eq, Structural)]
pub enum SlotsPolicy {
    Bias,
    RoundRobin,
    RoundRobinLocal,
}

/// `s` spells `name` when ASCII upper case letters are read as lower case.
pub open spec fn spells(s: Seq<u8>, name: Seq<u8>) -> bool {
    s.len() == name.len() && forall|i: int| 0 <= i < s.len() ==> ascii_lower(#[trigger] s[i]) == name[i]
}

pub open spec fn ascii_lower(b: u8) -> u8 {
    if 65 <= b <= 90 {
        (b + 32) as u8
    } else {
        b
    }
}

pub open spec fn bias_name() -> Seq<u8> {
    seq![98u8, 105, 97, 115]
}

pub open spec fn round_robin_name() -> Seq<u8> {
    seq![114u8, 111, 117, 110, 100, 45, 114, 111, 98, 105, 110]
}

pub open spec fn round_robin_local_name() -> Seq<u8> {
    seq![114u8, 111, 117, 110, 100, 45, 114, 111, 98, 105, 110, 45, 108, 111, 99, 97, 108]
}

fn lower_byte(b: u8) -> (r: u8)
    ensures
        r == ascii_lower(b),
{
    if 65 <= b && b <= 90 {
        b + 32
    } else {
        b
    }
}

fn spells_name(s: &[u8], name: &Vec<u8>) -> (r: bool)
    ensures
        r == spells(s@, name@),
{
    if s.len() != name.len() {
        return false;
    }
    let mut i: usize = 0;
    while i < s.len()
        invariant
            s@.len() == name@.len(),
            0 <= i <= s@.len(),
            forall|k: int| 0 <= k < i ==> ascii_lower(#[trigger] s@[k]) == name@[k],
        decreases s@.len() - i,
    {
        if lower_byte(s[i]) != name[i] {
            return false;
        }
        i = i + 1;
    }
    true
}

impl SlotsPolicy {
    /// Whether reservations prefer the executor that asks for them.
    pub fn is_local(&self) -> (r: bool)
        ensures
            r == (*self == SlotsPolicy::RoundRobinLocal),
    {
        match self {
            SlotsPolicy::RoundRobinLocal => true,
            _ => false,
        }
    }

    /// The policy named `s` (`bias`, `round-robin` or `round-robin-local`, in any ASCII case);
    /// `ConfigInvalid` for any other text.
    pub fn parse(s: &str) -> (r: Result<SlotsPolicy, SchedulerError>)
        ensures
            r == if spells(s.spec_bytes(), bias_name()) {
                Ok::<SlotsPolicy, SchedulerError>(SlotsPolicy::Bias)
            } else if spells(s.spec_bytes(), round_robin_name()) {
                Ok(SlotsPolicy::RoundRobin)
            } else if spells(s.spec_bytes(), round_robin_local_name()) {
                Ok(SlotsPolicy::RoundRobinLocal)
            } else {
                Err(SchedulerError::ConfigInvalid)
            },
    {
        let b = s.as_bytes();
        let bias: Vec<u8> = vec![98u8, 105, 97, 115];
        let rr: Vec<u8> = vec![114u8, 111, 117, 110, 100, 45, 114, 111, 98, 105, 110];
        let rrl: Vec<u8> = vec![114u8, 111, 117, 110, 100, 45, 114, 111, 98, 105, 110, 45, 108, 111, 99, 97, 108];
        proof {
            assert(bias@ =~= bias_name());
            assert(rr@ =~= round_robin_name());
            assert(rrl@ =~= round_robin_local_name());
        }
        if spells_name(b, &bias) {
            Ok(SlotsPolicy::Bias)
        } else if spells_name(b, &rr) {
            Ok(SlotsPolicy::RoundRobin)
        } else if spells_name(b, &rrl) {
            Ok(SlotsPolicy::RoundRobinLocal)
        } else {
            Err(SchedulerError::ConfigInvalid)
        }
    }
}

impl std::str::FromStr for SlotsPolicy {
    type Err = SchedulerError;

    fn from_str(s: &str) -> Result<Self, Self::Err> {
        SlotsPolicy::parse(s)
    }
}

/// Settings of the scheduler.
#[derive(Debug)]
pub struct SchedulerConfig {
    /// Whether executors poll for work or the scheduler pushes it.
    pub scheduling_policy: TaskSchedulingPolicy,
    /// Depth of the event loop's queue; posting waits while it is full.
    pub event_loop_buffer_size: u32,
    /// How reservations are spread over executors.
    pub executor_slots_policy: SlotsPolicy,
    /// Delay before the shuffle data of a finished job is removed; 0 keeps it.
    pub finished_job_data_clean_up_interval_seconds: u64,
    /// Delay before the state of a finished job is removed; 0 keeps it.
    pub finished_job_state_clean_up_interval_seconds: u64,
    /// Endpoint through which results are proxied, if any.
    pub advertise_flight_result_route_endpoint: Option<String>,
}

impl Default for SchedulerConfig {
    fn default() -> (r: Self)
        ensures
            r.scheduling_policy == TaskSchedulingPolicy::PullStaged,
            r.event_loop_buffer_size == 10000,
            r.executor_slots_policy == SlotsPolicy::Bias,
            r.finished_job_data_clean_up_interval_seconds == 300,
            r.finished_job_state_clean_up_interval_seconds == 3600,
            r.advertise_flight_result_route_endpoint.is_none(),
    {
        SchedulerConfig {
            scheduling_policy: TaskSchedulingPolicy::PullStaged,
            event_loop_buffer_size: 10000,
            executor_slots_policy: SlotsPolicy::Bias,
            finished_job_data_clean_up_interval_seconds: 300,
            finished_job_state_clean_up_interval_seconds: 3600,
            advertise_flight_result_route_endpoint: None,
        }
    }
}

impl SchedulerConfig {
    /// Whether the scheduler pushes tasks to executors.
    pub fn is_push_staged_scheduling(&self) -> (r: bool)
        ensures
            r == (self.scheduling_policy == TaskSchedulingPolicy::PushStaged),
    {
        match self.scheduling_policy {
            TaskSchedulingPolicy::PushStaged => true,
            TaskSchedulingPolicy::PullStaged => false,
        }
    }

    pub fn with_scheduler_policy(self, policy: TaskSchedulingPolicy) -> (r: Self)
        ensures
            r == (SchedulerConfig { scheduling_policy: policy, ..self }),
    {
        SchedulerConfig { scheduling_policy: policy, ..self }
    }

    pub fn with_event_loop_buffer_size(self, buffer_size: u32) -> (r: Self)
        ensures
            r == (SchedulerConfig { event_loop_buffer_size: buffer_size, ..self }),
    {
        SchedulerConfig { event_loop_buffer_size: buffer_size, ..self }
    }

    pub fn with_finished_job_data_clean_up_interval_seconds(self, interval_seconds: u64) -> (r: Self)
        ensures
            r == (SchedulerConfig { finished_job_data_clean_up_interval_seconds: interval_seconds, ..self }),
    {
        SchedulerConfig { finished_job_data_clean_up_interval_seconds: interval_seconds, ..self }
    }

    pub fn with_finished_job_state_clean_up_interval_seconds(self, interval_seconds: u64) -> (r: Self)
        ensures
            r == (SchedulerConfig { finished_job_state_clean_up_interval_seconds: interval_seconds, ..self }),
    {
        SchedulerConfig { finished_job_state_clean_up_interval_seconds: interval_seconds, ..self }
    }

    pub fn with_advertise_flight_result_route_endpoint(self, endpoint: Option<String>) -> (r: Self)
        ensures
            r == (SchedulerConfig { advertise_flight_result_route_endpoint: endpoint, ..self }),
    {
        SchedulerConfig { advertise_flight_result_route_endpoint: endpoint, ..self }
    }
}

} // verus!
