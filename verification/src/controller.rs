//! Runner controller: wraps one runner instance with a uniform lifecycle
//! surface, independent of the action-specific logic inside the runner.
//!
//! Control operations on a terminal controller are rejected with a no-op
//! error, never a panic.

use vstd::prelude::*;
use crate::node::{BoxedRunner, Context};

verus! {

/// Lifecycle state of one wrapped runner.
#[derive(Clone, Copy, PartialEq, Eq, Structural, Debug)]
pub enum RunnerState {
    Idle,
    Running,
    Paused,
    Completed,
    Failed,
    Cancelled,
}

impl RunnerState {
    /// Completed, Failed and Cancelled accept no further control
    /// operations.
    pub open spec fn is_terminal(self) -> bool {
        self == RunnerState::Completed || self == RunnerState::Failed || self
            == RunnerState::Cancelled
    }
}

/// A control operation arrived in a state that does not accept it; the
/// request is a no-op.
#[derive(Clone, Copy, PartialEq, Eq, Structural, Debug)]
pub enum ControlError {
    Rejected,
}

/// One runner behind its lifecycle state machine.
pub struct NodeRunnerController {
    pub runner: BoxedRunner,
    pub state: RunnerState,
}

impl NodeRunnerController {
    /// Wraps a fresh runner; the controller starts idle.
    pub fn new(runner: BoxedRunner) -> (r: NodeRunnerController)
        ensures
            r.state == RunnerState::Idle,
    {
        NodeRunnerController { runner, state: RunnerState::Idle }
    }

    /// Invokes the runner's action. The controller passes through Running
    /// and ends Completed exactly when the runner reports success, Failed
    /// exactly when it reports an error.
    pub fn start(&mut self, ctx: &Context, param: &serde_json::Value) -> (r: Result<(), String>)
        requires
            old(self).state == RunnerState::Idle,
        ensures
            r is Ok <==> final(self).state == RunnerState::Completed,
            r is Err <==> final(self).state == RunnerState::Failed,
    {
        self.state = RunnerState::Running;
        let outcome = self.runner.inner.run(ctx, param);
        match outcome {
            Ok(()) => {
                self.state = RunnerState::Completed;
                Ok(())
            },
            Err(message) => {
                self.state = RunnerState::Failed;
                Err(message)
            },
        }
    }

    /// Requests a cooperative pause: honored only while Running; any
    /// other state rejects the request unchanged.
    pub fn pause(&mut self) -> (r: Result<(), ControlError>)
        ensures
            old(self).state == RunnerState::Running ==> r is Ok && final(self).state
                == RunnerState::Paused,
            old(self).state != RunnerState::Running ==> r is Err && *final(self) == *old(self),
            final(self).runner == old(self).runner,
    {
        match self.state {
            RunnerState::Running => {
                self.state = RunnerState::Paused;
                Ok(())
            },
            _ => Err(ControlError::Rejected),
        }
    }

    /// Resumes a paused runner; any other state rejects the request
    /// unchanged.
    pub fn resume(&mut self) -> (r: Result<(), ControlError>)
        ensures
            old(self).state == RunnerState::Paused ==> r is Ok && final(self).state
                == RunnerState::Running,
            old(self).state != RunnerState::Paused ==> r is Err && *final(self) == *old(self),
            final(self).runner == old(self).runner,
    {
        match self.state {
            RunnerState::Paused => {
                self.state = RunnerState::Running;
                Ok(())
            },
            _ => Err(ControlError::Rejected),
        }
    }

    /// Requests cooperative cancellation from any non-terminal state; a
    /// terminal state rejects the request unchanged.
    pub fn cancel(&mut self) -> (r: Result<(), ControlError>)
        ensures
            !old(self).state.is_terminal() ==> r is Ok && final(self).state
                == RunnerState::Cancelled,
            old(self).state.is_terminal() ==> r is Err && *final(self) == *old(self),
            final(self).runner == old(self).runner,
    {
        match self.state {
            RunnerState::Idle | RunnerState::Running | RunnerState::Paused => {
                self.state = RunnerState::Cancelled;
                Ok(())
            },
            _ => Err(ControlError::Rejected),
        }
    }
}

} // verus!
