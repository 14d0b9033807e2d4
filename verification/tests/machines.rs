use swansong::counter::{Decrement, Manager};
use swansong::wait::{
    interrupt_start, interrupt_step, wait_start, wait_step, InterruptAction, InterruptEvent,
    InterruptStage, WaitAction, WaitEvent, WaitStage,
};

#[test]
fn wait_finishes_when_ready_at_once() {
    let (s, a) = wait_start(false);
    assert_eq!(a, WaitAction::CheckReady);
    let (_, a) = wait_step(s, WaitEvent::Checked(true));
    assert_eq!(a, WaitAction::Finish);
}

#[test]
fn wait_registers_then_rechecks_then_waits() {
    let (s, _) = wait_start(false);
    let (s, a) = wait_step(s, WaitEvent::Checked(false));
    assert_eq!(a, WaitAction::RegisterAndCheck);
    let (s, a) = wait_step(s, WaitEvent::Checked(false));
    assert_eq!(a, WaitAction::AwaitListener);
    assert!(s.has_listener);
    let (s2, a) = wait_step(s, WaitEvent::StillPending);
    assert_eq!(a, WaitAction::Suspend);
    assert!(s2.has_listener);
    let (s, a) = wait_step(s, WaitEvent::Fired);
    assert_eq!(a, WaitAction::CheckReady);
    assert!(!s.has_listener);
    assert_eq!(s.stage, WaitStage::Top);
}

#[test]
fn wait_ready_right_after_registering() {
    let (s, _) = wait_start(false);
    let (s, _) = wait_step(s, WaitEvent::Checked(false));
    let (s, a) = wait_step(s, WaitEvent::Checked(true));
    assert_eq!(a, WaitAction::Finish);
    assert!(s.has_listener);
}

#[test]
fn wait_reuses_listener_across_polls() {
    let (s, _) = wait_start(true);
    let (_, a) = wait_step(s, WaitEvent::Checked(false));
    assert_eq!(a, WaitAction::AwaitListener);
}

#[test]
fn interrupt_terminates_when_stopped() {
    let (s, a) = interrupt_start(false);
    assert_eq!(a, InterruptAction::CheckStopped);
    let (_, a) = interrupt_step(s, InterruptEvent::Checked(true));
    assert_eq!(a, InterruptAction::Terminate);
}

#[test]
fn interrupt_delivers_ready_output() {
    let (s, _) = interrupt_start(false);
    let (s, a) = interrupt_step(s, InterruptEvent::Checked(false));
    assert_eq!(a, InterruptAction::RegisterAndCheck);
    let (s, a) = interrupt_step(s, InterruptEvent::Checked(false));
    assert_eq!(a, InterruptAction::PollWrapped);
    let (s, a) = interrupt_step(s, InterruptEvent::WrappedReady);
    assert_eq!(a, InterruptAction::Deliver);
    assert!(s.has_listener);
}

#[test]
fn interrupt_pending_then_stop_wakes_and_terminates() {
    let (s, _) = interrupt_start(true);
    let (s, a) = interrupt_step(s, InterruptEvent::Checked(false));
    assert_eq!(a, InterruptAction::PollWrapped);
    let (s, a) = interrupt_step(s, InterruptEvent::WrappedPending);
    assert_eq!(a, InterruptAction::CheckStopped);
    let (s, a) = interrupt_step(s, InterruptEvent::Checked(false));
    assert_eq!(a, InterruptAction::PollListener);
    assert_eq!(s.stage, InterruptStage::Listening);
    let (s2, a) = interrupt_step(s, InterruptEvent::StillPending);
    assert_eq!(a, InterruptAction::Suspend);
    assert!(s2.has_listener);
    let (s, a) = interrupt_step(s, InterruptEvent::Fired);
    assert_eq!(a, InterruptAction::CheckStopped);
    let (_, a) = interrupt_step(s, InterruptEvent::Checked(true));
    assert_eq!(a, InterruptAction::Terminate);
}

#[test]
fn interrupt_scope_gone_at_registration() {
    let (s, _) = interrupt_start(false);
    let (s, _) = interrupt_step(s, InterruptEvent::Checked(false));
    let (_, a) = interrupt_step(s, InterruptEvent::Gone);
    assert_eq!(a, InterruptAction::Terminate);
}

#[test]
fn doctest_example() {
    let mut manager = Manager::new();
    assert_eq!(manager.count(), 0);
    let g = manager.guard();
    assert_eq!(manager.count(), 1);
    manager.release(g);
    assert_eq!(manager.count(), 0);
    let guard = manager.guard();
    assert_eq!(manager.count(), 1);
    let clone = manager.guard();
    assert_eq!(manager.count(), 2);
    let clone2 = manager.guard();
    assert_eq!(manager.count(), 3);
    assert!(!manager.is_zero());
    assert_eq!(manager.release(clone), Decrement::Decremented);
    assert!(!manager.is_zero());
    assert_eq!(manager.count(), 2);
    manager.release(clone2);
    assert_eq!(manager.count(), 1);
    assert_eq!(manager.release(guard), Decrement::ReachedZero);
    assert!(manager.is_zero());
}

#[test]
fn manager_saturates_at_zero() {
    let mut manager = Manager::new();
    assert_eq!(manager.decrement(), Decrement::Saturated);
    assert_eq!(manager.count(), 0);
    let (mut m, g) = Manager::with_one_guard();
    assert_eq!(m.count(), 1);
    assert_eq!(m.release(g), Decrement::ReachedZero);
}
