//! Workflow-level status values and the event payload broadcast to
//! observers on every status transition.

use vstd::prelude::*;

verus! {

/// Label under which workflow status events are published.
pub const TASK_EVENT: &'static str = "task";

/// Status of one in-flight workflow run, mutated only by the executor and
/// published on every transition.
#[derive(Clone, Copy, PartialEq, Eq, Structural, Debug)]
pub enum TaskStatus {
    Running,
    Paused,
    Finished,
    Cancelled,
}

/// Payload of one status event.
#[derive(Clone, Copy, PartialEq, Eq, Structural, Debug)]
pub struct TaskEventPayload {
    pub status: TaskStatus,
}

impl TaskEventPayload {
    /// Wraps a status in an event payload.
    pub fn new(status: TaskStatus) -> (r: TaskEventPayload)
        ensures
            r.status == status,
    {
        TaskEventPayload { status }
    }
}

} // verus!
