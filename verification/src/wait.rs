//! The decisions of the polling loops: what a waiter for completion or for the
//! stop signal does next, and what a stop-aware wrapper around a future or a
//! stream does next, given what its owner observed when carrying out the last
//! step. The owner performs each step (checking the tree, registering and
//! polling listeners, polling the wrapped value) and reports back.
use vstd::prelude::*;

verus! {

/// Where a waiter stands within one round of waiting.
#[derive(Debug, Clone, Copy, PartialEq, Eq, Structural)]
pub enum WaitStage {
    /// About to check whether the awaited condition holds.
    Top,
    /// A listener has just been registered; the condition is checked again.
    Registering,
    /// Waiting on the registered listener.
    Awaiting,
}

/// What the owner of a waiter observed.
#[derive(Debug, Clone, Copy, PartialEq, Eq, Structural)]
pub enum WaitEvent {
    /// The awaited condition was checked: it holds, or not.
    Checked(bool),
    /// The listener has been notified.
    Fired,
    /// The listener has not been notified yet.
    StillPending,
}

/// What the owner of a waiter is to do next.
#[derive(Debug, Clone, Copy, PartialEq, Eq, Structural)]
pub enum WaitAction {
    /// Check the awaited condition.
    CheckReady,
    /// Register a listener, then check the condition again.
    RegisterAndCheck,
    /// Wait on (or poll) the registered listener.
    AwaitListener,
    /// The condition holds: the wait is over.
    Finish,
    /// Give control back until the listener wakes the waiter.
    Suspend,
}

/// The state of a waiter between steps.
#[derive(Debug, Clone, Copy, PartialEq, Eq, Structural)]
pub struct WaitState {
    pub stage: WaitStage,
    /// A listener is registered and not yet consumed.
    pub has_listener: bool,
}

/// A waiter's state is consistent: it waits on a listener only with one
/// registered, and registers one only without one.
pub open spec fn wait_state_valid(s: WaitState) -> bool {
    &&& s.stage == WaitStage::Awaiting ==> s.has_listener
    &&& s.stage == WaitStage::Registering ==> !s.has_listener
}

/// The decision table of a waiter.
pub open spec fn wait_table(s: WaitState, e: WaitEvent) -> (WaitState, WaitAction) {
    match (s.stage, e) {
        (WaitStage::Top, WaitEvent::Checked(true)) => (s, WaitAction::Finish),
        (WaitStage::Top, WaitEvent::Checked(false)) => if s.has_listener {
            (WaitState { stage: WaitStage::Awaiting, has_listener: true }, WaitAction::AwaitListener)
        } else {
            (WaitState { stage: WaitStage::Registering, has_listener: false }, WaitAction::RegisterAndCheck)
        },
        (WaitStage::Registering, WaitEvent::Checked(true)) => (WaitState { stage: WaitStage::Top, has_listener: true }, WaitAction::Finish),
        (WaitStage::Registering, WaitEvent::Checked(false)) => (WaitState { stage: WaitStage::Awaiting, has_listener: true }, WaitAction::AwaitListener),
        (WaitStage::Awaiting, WaitEvent::Fired) => (WaitState { stage: WaitStage::Top, has_listener: false }, WaitAction::CheckReady),
        (WaitStage::Awaiting, WaitEvent::StillPending) => (s, WaitAction::Suspend),
        (WaitStage::Top, _) => (s, WaitAction::CheckReady),
        (WaitStage::Registering, _) => (s, WaitAction::RegisterAndCheck),
        (WaitStage::Awaiting, _) => (s, WaitAction::AwaitListener),
    }
}

/// The first step of a round of waiting: check the condition, keeping the
/// listener from an earlier round if there is one.
pub fn wait_start(has_listener: bool) -> (r: (WaitState, WaitAction))
    ensures
        r.0 == (WaitState { stage: WaitStage::Top, has_listener }),
        r.1 == WaitAction::CheckReady,
{
    (WaitState { stage: WaitStage::Top, has_listener }, WaitAction::CheckReady)
}

/// The next step of a waiter: finish as soon as the condition is seen to hold;
/// otherwise wait on a listener, registering one (and checking again, so that
/// a change between the check and the registration is not missed) if none is
/// registered; and give control back only while a listener is registered.
pub fn wait_step(s: WaitState, e: WaitEvent) -> (r: (WaitState, WaitAction))
    ensures
        r == wait_table(s, e),
        wait_state_valid(s) ==> wait_state_valid(r.0),
        r.1 == WaitAction::Finish ==> e == WaitEvent::Checked(true),
        wait_state_valid(s) && r.1 == WaitAction::Suspend ==> r.0.has_listener,
        wait_state_valid(s) && r.1 == WaitAction::RegisterAndCheck ==> !r.0.has_listener,
        e == WaitEvent::Checked(true) && s.stage != WaitStage::Awaiting ==> r.1 == WaitAction::Finish,
{
    match (s.stage, e) {
        (WaitStage::Top, WaitEvent::Checked(true)) => (s, WaitAction::Finish),
        (WaitStage::Top, WaitEvent::Checked(false)) => if s.has_listener {
            (WaitState { stage: WaitStage::Awaiting, has_listener: true }, WaitAction::AwaitListener)
        } else {
            (WaitState { stage: WaitStage::Registering, has_listener: false }, WaitAction::RegisterAndCheck)
        },
        (WaitStage::Registering, WaitEvent::Checked(true)) => (WaitState { stage: WaitStage::Top, has_listener: true }, WaitAction::Finish),
        (WaitStage::Registering, WaitEvent::Checked(false)) => (WaitState { stage: WaitStage::Awaiting, has_listener: true }, WaitAction::AwaitListener),
        (WaitStage::Awaiting, WaitEvent::Fired) => (WaitState { stage: WaitStage::Top, has_listener: false }, WaitAction::CheckReady),
        (WaitStage::Awaiting, WaitEvent::StillPending) => (s, WaitAction::Suspend),
        (WaitStage::Top, _) => (s, WaitAction::CheckReady),
        (WaitStage::Registering, _) => (s, WaitAction::RegisterAndCheck),
        (WaitStage::Awaiting, _) => (s, WaitAction::AwaitListener),
    }
}

/// Where a stop-aware wrapper stands within one poll.
#[derive(Debug, Clone, Copy, PartialEq, Eq, Structural)]
pub enum InterruptStage {
    /// About to check whether the scope is stopped or gone.
    Top,
    /// A stop listener has just been registered; the scope is checked again.
    Registering,
    /// Polling the wrapped future or stream.
    Polling,
    /// The wrapped value is pending; the scope is checked once more.
    Rechecking,
    /// Polling the stop listener.
    Listening,
}

/// What the owner of a stop-aware wrapper observed.
#[derive(Debug, Clone, Copy, PartialEq, Eq, Structural)]
pub enum InterruptEvent {
    /// The scope was checked: it is stopped or gone, or not.
    Checked(bool),
    /// Registering a listener failed: the scope is gone.
    Gone,
    /// The wrapped value produced its output.
    WrappedReady,
    /// The wrapped value is pending.
    WrappedPending,
    /// The stop listener has been notified.
    Fired,
    /// The stop listener has not been notified yet.
    StillPending,
}

/// What the owner of a stop-aware wrapper is to do next.
#[derive(Debug, Clone, Copy, PartialEq, Eq, Structural)]
pub enum InterruptAction {
    /// Check whether the scope is stopped or gone.
    CheckStopped,
    /// Register a stop listener (if the scope is still there), then check the
    /// scope again.
    RegisterAndCheck,
    /// Poll the wrapped value.
    PollWrapped,
    /// Poll the stop listener.
    PollListener,
    /// The scope is stopped or gone: end with the terminal value.
    Terminate,
    /// Hand the wrapped value's output over.
    Deliver,
    /// Give control back until the wrapped value or the listener wakes it.
    Suspend,
}

/// The state of a stop-aware wrapper between steps.
#[derive(Debug, Clone, Copy, PartialEq, Eq, Structural)]
pub struct InterruptState {
    pub stage: InterruptStage,
    /// A stop listener is registered and not yet consumed.
    pub has_listener: bool,
}

/// The action a stage waits to have carried out.
pub open spec fn interrupt_pending_action(stage: InterruptStage) -> InterruptAction {
    match stage {
        InterruptStage::Top => InterruptAction::CheckStopped,
        InterruptStage::Registering => InterruptAction::RegisterAndCheck,
        InterruptStage::Polling => InterruptAction::PollWrapped,
        InterruptStage::Rechecking => InterruptAction::CheckStopped,
        InterruptStage::Listening => InterruptAction::PollListener,
    }
}

/// A wrapper's state is consistent: past registration a listener is
/// registered, and one is registered only without one.
pub open spec fn interrupt_state_valid(s: InterruptState) -> bool {
    &&& s.stage == InterruptStage::Registering ==> !s.has_listener
    &&& (s.stage == InterruptStage::Polling || s.stage == InterruptStage::Rechecking
        || s.stage == InterruptStage::Listening) ==> s.has_listener
}

/// The decision table of a stop-aware wrapper.
pub open spec fn interrupt_table(s: InterruptState, e: InterruptEvent) -> (InterruptState, InterruptAction) {
    let h = s.has_listener;
    match (s.stage, e) {
        (InterruptStage::Top, InterruptEvent::Checked(true)) => (s, InterruptAction::Terminate),
        (InterruptStage::Top, InterruptEvent::Checked(false)) => if h {
            (InterruptState { stage: InterruptStage::Polling, has_listener: true }, InterruptAction::PollWrapped)
        } else {
            (InterruptState { stage: InterruptStage::Registering, has_listener: false }, InterruptAction::RegisterAndCheck)
        },
        (InterruptStage::Registering, InterruptEvent::Gone) => (InterruptState { stage: InterruptStage::Top, has_listener: false }, InterruptAction::Terminate),
        (InterruptStage::Registering, InterruptEvent::Checked(true)) => (InterruptState { stage: InterruptStage::Top, has_listener: true }, InterruptAction::Terminate),
        (InterruptStage::Registering, InterruptEvent::Checked(false)) => (InterruptState { stage: InterruptStage::Polling, has_listener: true }, InterruptAction::PollWrapped),
        (InterruptStage::Polling, InterruptEvent::WrappedReady) => (InterruptState { stage: InterruptStage::Top, has_listener: h }, InterruptAction::Deliver),
        (InterruptStage::Polling, InterruptEvent::WrappedPending) => (InterruptState { stage: InterruptStage::Rechecking, has_listener: h }, InterruptAction::CheckStopped),
        (InterruptStage::Rechecking, InterruptEvent::Checked(true)) => (InterruptState { stage: InterruptStage::Top, has_listener: h }, InterruptAction::Terminate),
        (InterruptStage::Rechecking, InterruptEvent::Checked(false)) => (InterruptState { stage: InterruptStage::Listening, has_listener: h }, InterruptAction::PollListener),
        (InterruptStage::Listening, InterruptEvent::StillPending) => (s, InterruptAction::Suspend),
        (InterruptStage::Listening, InterruptEvent::Fired) => (InterruptState { stage: InterruptStage::Top, has_listener: false }, InterruptAction::CheckStopped),
        _ => (s, interrupt_pending_action(s.stage)),
    }
}

/// The first step of a poll of a stop-aware wrapper: check the scope, keeping
/// the listener from an earlier poll if there is one.
pub fn interrupt_start(has_listener: bool) -> (r: (InterruptState, InterruptAction))
    ensures
        r.0 == (InterruptState { stage: InterruptStage::Top, has_listener }),
        r.1 == InterruptAction::CheckStopped,
{
    (InterruptState { stage: InterruptStage::Top, has_listener }, InterruptAction::CheckStopped)
}

/// The next step of a stop-aware wrapper: end with the terminal value as soon
/// as the scope is seen stopped or gone; otherwise make sure a stop listener is
/// registered (checking again after registering), poll the wrapped value and
/// hand its output over if it has one; if it is pending, check the scope once
/// more and then poll the listener, giving control back while it has not
/// fired and starting over once it has.
pub fn interrupt_step(s: InterruptState, e: InterruptEvent) -> (r: (InterruptState, InterruptAction))
    ensures
        r == interrupt_table(s, e),
        interrupt_state_valid(s) ==> interrupt_state_valid(r.0),
        interrupt_state_valid(s) && r.1 == InterruptAction::Suspend ==> r.0.has_listener,
        r.1 == InterruptAction::Terminate ==> (e == InterruptEvent::Checked(true) || e == InterruptEvent::Gone),
        r.1 == InterruptAction::Deliver ==> e == InterruptEvent::WrappedReady,
        r.1 == InterruptAction::Suspend ==> s.stage == InterruptStage::Listening && e == InterruptEvent::StillPending
            && r.0.has_listener == s.has_listener,
        e == InterruptEvent::Checked(true) && (s.stage == InterruptStage::Top || s.stage == InterruptStage::Registering
            || s.stage == InterruptStage::Rechecking) ==> r.1 == InterruptAction::Terminate,
{
    let h = s.has_listener;
    match (s.stage, e) {
        (InterruptStage::Top, InterruptEvent::Checked(true)) => (s, InterruptAction::Terminate),
        (InterruptStage::Top, InterruptEvent::Checked(false)) => if h {
            (InterruptState { stage: InterruptStage::Polling, has_listener: true }, InterruptAction::PollWrapped)
        } else {
            (InterruptState { stage: InterruptStage::Registering, has_listener: false }, InterruptAction::RegisterAndCheck)
        },
        (InterruptStage::Registering, InterruptEvent::Gone) => (InterruptState { stage: InterruptStage::Top, has_listener: false }, InterruptAction::Terminate),
        (InterruptStage::Registering, InterruptEvent::Checked(true)) => (InterruptState { stage: InterruptStage::Top, has_listener: true }, InterruptAction::Terminate),
        (InterruptStage::Registering, InterruptEvent::Checked(false)) => (InterruptState { stage: InterruptStage::Polling, has_listener: true }, InterruptAction::PollWrapped),
        (InterruptStage::Polling, InterruptEvent::WrappedReady) => (InterruptState { stage: InterruptStage::Top, has_listener: h }, InterruptAction::Deliver),
        (InterruptStage::Polling, InterruptEvent::WrappedPending) => (InterruptState { stage: InterruptStage::Rechecking, has_listener: h }, InterruptAction::CheckStopped),
        (InterruptStage::Rechecking, InterruptEvent::Checked(true)) => (InterruptState { stage: InterruptStage::Top, has_listener: h }, InterruptAction::Terminate),
        (InterruptStage::Rechecking, InterruptEvent::Checked(false)) => (InterruptState { stage: InterruptStage::Listening, has_listener: h }, InterruptAction::PollListener),
        (InterruptStage::Listening, InterruptEvent::StillPending) => (s, InterruptAction::Suspend),
        (InterruptStage::Listening, InterruptEvent::Fired) => (InterruptState { stage: InterruptStage::Top, has_listener: false }, InterruptAction::CheckStopped),
        _ => {
            let a = match s.stage {
                InterruptStage::Top => InterruptAction::CheckStopped,
                InterruptStage::Registering => InterruptAction::RegisterAndCheck,
                InterruptStage::Polling => InterruptAction::PollWrapped,
                InterruptStage::Rechecking => InterruptAction::CheckStopped,
                InterruptStage::Listening => InterruptAction::PollListener,
            };
            (s, a)
        },
    }
}

/// The upper bound a stop-aware wrapper reports on what is left: nothing may
/// be left, since it can stop at any time, and never more than the wrapped
/// value reports.
pub fn interrupted_size_hint(upper: Option<usize>) -> (r: (usize, Option<usize>))
    ensures
        r == (0usize, upper),
{
    (0, upper)
}

} // verus!
