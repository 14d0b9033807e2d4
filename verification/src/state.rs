use vstd::prelude::*;

verus! {

/// The current status of a shutdown scope.
#[derive(Debug, Clone, Copy, PartialEq, Eq, Structural)]
pub enum ShutdownState {
    /// Shutdown has not been initiated.
    Running,
    /// Shutdown has been initiated, and we are waiting for any guards to drop.
    ShuttingDown,
    /// Shutdown has been initiated and all guards have been dropped.
    Complete,
}

/// The state that a scope reports, given whether it is stopped and whether its
/// subtree holds no guard.
pub open spec fn state_of(stopped: bool, zero: bool) -> ShutdownState {
    if stopped && zero {
        ShutdownState::Complete
    } else if stopped {
        ShutdownState::ShuttingDown
    } else {
        ShutdownState::Running
    }
}

impl ShutdownState {
    /// Is the shutdown state [`ShutdownState::Running`]?
    pub fn is_running(&self) -> (r: bool)
        ensures
            r == (*self == ShutdownState::Running),
    {
        matches!(self, ShutdownState::Running)
    }

    /// Is the shutdown state [`ShutdownState::ShuttingDown`]?
    pub fn is_shutting_down(&self) -> (r: bool)
        ensures
            r == (*self == ShutdownState::ShuttingDown),
    {
        matches!(self, ShutdownState::ShuttingDown)
    }

    /// Is the shutdown state [`ShutdownState::Complete`]?
    pub fn is_complete(&self) -> (r: bool)
        ensures
            r == (*self == ShutdownState::Complete),
    {
        matches!(self, ShutdownState::Complete)
    }

    /// Classify an observation of a scope: complete when it is stopped and its
    /// subtree holds no guard, shutting down when it is stopped with guards left,
    /// running otherwise.
    pub fn from_observation(stopped: bool, zero: bool) -> (s: ShutdownState)
        ensures
            s == state_of(stopped, zero),
    {
        let complete = stopped && zero;
        if complete {
            ShutdownState::Complete
        } else if stopped {
            ShutdownState::ShuttingDown
        } else {
            ShutdownState::Running
        }
    }
}

} // verus!
