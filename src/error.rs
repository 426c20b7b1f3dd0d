use vstd::prelude::*;

verus! {

/// The kinds of failure that the scheduler reports to its callers.
#[derive(Debug, Clone, Copy, PartialEq, Eq, Structural)]
pub enum SchedulerError {
    /// A configuration value is not one of the recognised ones.
    ConfigInvalid,
    /// The state backend could not serve the request.
    Storage,
    /// An executor could not be reached.
    Connectivity,
    /// A plan handed to the scheduler or executor has the wrong shape.
    InvalidPlan,
    /// An executor, job or task that the request names is not known.
    NotFound,
    /// The caller does not own the job it tries to change.
    NotOwned,
    /// The job already has an owner, or the request contradicts the current state.
    Conflict,
    /// The work was cancelled.
    Cancelled,
    /// An invariant of the scheduler would be broken by the request.
    Internal,
    /// A request lacks a field that it needs.
    InvalidArgument,
    /// The request is not served in the scheduler's current mode.
    FailedPrecondition,
    /// The request asks for something the scheduler does not offer.
    Unimplemented,
}

} // verus!
