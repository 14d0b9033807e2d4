use swansong::handles::Swansong;
use swansong::tree::{Notice, ShutdownTree};
use swansong::ShutdownState;

fn fresh() -> (ShutdownTree, Swansong) {
    let mut t = ShutdownTree::new();
    let s = Swansong::new(&mut t);
    (t, s)
}

#[test]
fn new_scope_is_running_with_no_guards() {
    let (t, s) = fresh();
    assert_eq!(s.state(&t), ShutdownState::Running);
    assert_eq!(s.guard_count(&t), 0);
    assert_eq!(t.len(), 1);
}

#[test]
fn state_predicates() {
    assert!(ShutdownState::Running.is_running());
    assert!(!ShutdownState::Running.is_shutting_down());
    assert!(!ShutdownState::Running.is_complete());
    assert!(ShutdownState::ShuttingDown.is_shutting_down());
    assert!(!ShutdownState::ShuttingDown.is_running());
    assert!(ShutdownState::Complete.is_complete());
    assert!(!ShutdownState::Complete.is_shutting_down());
    assert_eq!(ShutdownState::from_observation(false, true), ShutdownState::Running);
    assert_eq!(ShutdownState::from_observation(true, false), ShutdownState::ShuttingDown);
    assert_eq!(ShutdownState::from_observation(true, true), ShutdownState::Complete);
}

#[test]
fn swansong() {
    let (mut t, s) = fresh();
    let guard = s.guard(&mut t);
    let guard2 = guard.clone_guard(&mut t);
    assert_eq!(s.guard_count(&t), 2);
    let mut completion = s.shut_down(&mut t);
    assert_eq!(s.state(&t), ShutdownState::ShuttingDown);
    assert!(!completion.is_ready(&t));
    guard.release(&mut t);
    assert!(!completion.is_ready(&t));
    assert_eq!(s.guard_count(&t), 1);
    guard2.release(&mut t);
    assert!(completion.is_ready(&t));
    assert_eq!(s.state(&t), ShutdownState::Complete);
    completion.release(&mut t);
}

#[test]
fn shut_down_owes_stop_and_zero_wakeups() {
    let (mut t, s) = fresh();
    let mut completion = s.shut_down(&mut t);
    let notices = t.take_notices();
    assert_eq!(notices, vec![Notice::Stop(0), Notice::Zero(0)]);
    assert!(t.take_notices().is_empty());
    completion.release(&mut t);
}

#[test]
fn second_shut_down_owes_nothing() {
    let (mut t, s) = fresh();
    let c1 = s.shut_down(&mut t);
    t.take_notices();
    let c2 = s.shut_down(&mut t);
    assert!(t.take_notices().is_empty());
    c1.release(&mut t);
    c2.release(&mut t);
}

#[test]
fn last_guard_release_owes_zero_wakeup_only_when_stopped() {
    let (mut t, s) = fresh();
    let g = s.guard(&mut t);
    g.release(&mut t);
    assert!(t.take_notices().is_empty());
    let g = s.guard(&mut t);
    let c = s.shut_down(&mut t);
    assert_eq!(t.take_notices(), vec![Notice::Stop(0)]);
    g.release(&mut t);
    assert_eq!(t.take_notices(), vec![Notice::Zero(0)]);
    c.release(&mut t);
}

#[test]
fn release_wakes_every_emptied_stopped_ancestor() {
    let (mut t, root) = fresh();
    let child = root.child(&mut t);
    let grandchild = child.child(&mut t);
    let g = grandchild.guard(&mut t);
    let c = root.shut_down(&mut t);
    t.take_notices();
    g.release(&mut t);
    assert_eq!(t.take_notices(), vec![Notice::Zero(2), Notice::Zero(1), Notice::Zero(0)]);
    c.release(&mut t);
}

#[test]
fn child_with_interrupt() {
    let (mut t, parent) = fresh();
    let child = parent.child(&mut t);
    let interrupt = child.interrupt(());
    assert!(!interrupt.is_stopped(&t));
    let c = parent.shut_down(&mut t);
    assert!(interrupt.is_stopped(&t));
    c.release(&mut t);
}

#[test]
fn child_created_after_parent_stopped() {
    let (mut t, parent) = fresh();
    let c = parent.shut_down(&mut t);
    let child = parent.child(&mut t);
    assert!(child.state(&t).is_complete());
    child.release(&mut t);
    assert!(parent.state(&t).is_complete());
    c.release(&mut t);
}

#[test]
fn spec_child_creation_is_transparent() {
    let (mut t, parent) = fresh();
    let _child = parent.child(&mut t);
    assert!(parent.state(&t).is_running());
    assert_eq!(parent.guard_count(&t), 0);
}

#[test]
fn spec_child_handle_drop_without_guards_is_transparent() {
    let (mut t, parent) = fresh();
    let child = parent.child(&mut t);
    child.release(&mut t);
    assert!(parent.state(&t).is_running());
    assert_eq!(parent.guard_count(&t), 0);
}

#[test]
fn spec_live_empty_child_does_not_delay_parent_completion() {
    let (mut t, parent) = fresh();
    let _child = parent.child(&mut t);
    let mut fut = parent.shut_down(&mut t);
    assert!(fut.is_ready(&t));
    assert!(parent.state(&t).is_complete());
}

#[test]
fn spec_guarded_on_discarded_child_equivalent_to_parent() {
    let (mut t, parent) = fresh();
    let child = parent.child(&mut t);
    let guarded = child.guarded(&mut t, "pending");
    child.release(&mut t);
    assert_eq!(parent.guard_count(&t), 1);
    let mut fut = parent.shut_down(&mut t);
    assert!(!fut.is_ready(&t));
    guarded.into_inner(&mut t);
    assert!(fut.is_ready(&t));
}

#[test]
fn spec_children_do_not_count_as_guards() {
    let (mut t, parent) = fresh();
    let _a = parent.child(&mut t);
    let _b = parent.child(&mut t);
    let _c = parent.child(&mut t);
    assert_eq!(parent.guard_count(&t), 0);
}

#[test]
fn spec_shutdown_propagates_downward() {
    let (mut t, parent) = fresh();
    let child = parent.child(&mut t);
    assert!(child.state(&t).is_running());
    parent.shut_down(&mut t);
    assert!(!child.state(&t).is_running());
}

#[test]
fn spec_shutdown_propagates_through_multi_level() {
    let (mut t, gp) = fresh();
    let p = gp.child(&mut t);
    let c = p.child(&mut t);
    gp.shut_down(&mut t);
    assert!(!p.state(&t).is_running());
    assert!(!c.state(&t).is_running());
}

#[test]
fn spec_child_shutdown_does_not_affect_parent() {
    let (mut t, parent) = fresh();
    let child = parent.child(&mut t);
    child.shut_down(&mut t);
    assert!(child.state(&t).is_complete());
    assert!(parent.state(&t).is_running());
}

#[test]
fn spec_siblings_are_independent() {
    let (mut t, parent) = fresh();
    let a = parent.child(&mut t);
    let b = parent.child(&mut t);
    a.shut_down(&mut t);
    assert!(a.state(&t).is_complete());
    assert!(b.state(&t).is_running());
    assert!(parent.state(&t).is_running());
}

#[test]
fn spec_parent_completion_waits_for_subtree_guards() {
    let (mut t, parent) = fresh();
    let child = parent.child(&mut t);
    let guard = child.guard(&mut t);
    let mut fut = parent.shut_down(&mut t);
    assert!(!fut.is_ready(&t));
    guard.release(&mut t);
    assert!(fut.is_ready(&t));
}

#[test]
fn spec_guard_count_is_subtree_sum() {
    let (mut t, parent) = fresh();
    let child_a = parent.child(&mut t);
    let child_b = parent.child(&mut t);
    let grandchild = child_a.child(&mut t);
    let _g1 = parent.guard(&mut t);
    let _g2 = child_a.guard(&mut t);
    let _g3 = child_a.guard(&mut t);
    let _g4 = child_b.guard(&mut t);
    let _g5 = grandchild.guard(&mut t);
    assert_eq!(grandchild.guard_count(&t), 1);
    assert_eq!(child_a.guard_count(&t), 3);
    assert_eq!(child_b.guard_count(&t), 1);
    assert_eq!(parent.guard_count(&t), 5);
}

#[test]
fn guard_count_counts_guards_of_complete_children() {
    // a child that completes and then takes a new guard still counts in its parent
    let (mut t, parent) = fresh();
    let child = parent.child(&mut t);
    child.shut_down(&mut t);
    let _other = parent.child(&mut t);
    let _g = child.guard(&mut t);
    assert_eq!(parent.guard_count(&t), 1);
    assert_eq!(parent.state(&t), ShutdownState::Running);
}

#[test]
fn spec_parent_state_reflects_subtree() {
    let (mut t, parent) = fresh();
    let child = parent.child(&mut t);
    let _g = child.guard(&mut t);
    parent.shut_down(&mut t);
    assert!(parent.state(&t).is_shutting_down());
}

#[test]
fn spec_guard_on_stopped_swansong_delays_completion() {
    let (mut t, swansong) = fresh();
    swansong.shut_down(&mut t);
    let guard = swansong.guard(&mut t);
    let mut fut = swansong.completion(&mut t);
    assert!(!fut.is_ready(&t));
    guard.release(&mut t);
    assert!(fut.is_ready(&t));
}

#[test]
fn spec_guard_outlives_child_handle() {
    let (mut t, parent) = fresh();
    let guard = {
        let child = parent.child(&mut t);
        let g = child.guard(&mut t);
        child.release(&mut t);
        g
    };
    assert_eq!(parent.guard_count(&t), 1);
    let mut fut = parent.shut_down(&mut t);
    assert!(!fut.is_ready(&t));
    guard.release(&mut t);
    assert!(fut.is_ready(&t));
}

#[test]
fn spec_interrupt_on_pinned_child_delegates_after_handle_drop() {
    let (mut t, parent) = fresh();
    let (_guard, interrupt) = {
        let child = parent.child(&mut t);
        let g = child.guard(&mut t);
        let i = child.interrupt(());
        child.release(&mut t);
        (g, i)
    };
    assert!(!interrupt.is_stopped(&t));
    assert!(t.is_alive(1));
}

#[test]
fn spec_interrupt_terminates_when_child_collected() {
    let (mut t, parent) = fresh();
    let interrupt = {
        let child = parent.child(&mut t);
        let i = child.interrupt(());
        child.release(&mut t);
        i
    };
    assert!(!t.is_alive(1));
    assert!(interrupt.is_stopped(&t));
    assert!(parent.state(&t).is_running());
}

#[test]
fn spec_child_handle_drop_does_not_stop_the_child() {
    let (mut t, parent) = fresh();
    let _guard = {
        let child = parent.child(&mut t);
        let g = child.guard(&mut t);
        child.release(&mut t);
        g
    };
    assert!(parent.state(&t).is_running());
    assert_eq!(parent.guard_count(&t), 1);
    assert!(!t.is_stopped(1));
}

#[test]
fn spec_root_drop_propagates_downward() {
    let (mut t, root) = fresh();
    let child = root.child(&mut t);
    let grandchild = child.child(&mut t);
    root.release(&mut t);
    assert!(!child.state(&t).is_running());
    assert!(!grandchild.state(&t).is_running());
    assert_eq!(t.take_notices(), vec![Notice::Stop(0), Notice::Stop(1), Notice::Stop(2), Notice::Zero(2), Notice::Zero(1), Notice::Zero(0)]);
}

#[test]
fn root_drop_with_other_handle_does_not_stop() {
    let (mut t, root) = fresh();
    let other = root.clone_handle(&mut t);
    assert_eq!(other, root);
    root.release(&mut t);
    assert!(other.state(&t).is_running());
    assert!(t.take_notices().is_empty());
}

#[test]
fn collected_scopes_are_pruned_from_child_lists() {
    let (mut t, parent) = fresh();
    let a = parent.child(&mut t);
    a.release(&mut t);
    assert!(!t.is_alive(1));
    let b = parent.child(&mut t);
    assert!(t.is_alive(2));
    parent.shut_down(&mut t);
    assert!(b.state(&t).is_complete());
    assert!(!t.is_stopped(1));
}

#[test]
fn completion_pins_scope_after_handle_drop() {
    let (mut t, parent) = fresh();
    let child = parent.child(&mut t);
    let mut fut = child.completion(&mut t);
    child.release(&mut t);
    assert!(t.is_alive(1));
    assert!(!fut.is_ready(&t));
    parent.shut_down(&mut t);
    assert!(fut.is_ready(&t));
    fut.release(&mut t);
    assert!(!t.is_alive(1));
}

#[test]
fn shutting_down_ready_once_stopped_whatever_the_guards() {
    let (mut t, s) = fresh();
    let _g = s.guard(&mut t);
    let sd = s.shutting_down(&mut t);
    assert!(!sd.is_ready(&t));
    s.shut_down(&mut t);
    assert!(sd.is_ready(&t));
    sd.release(&mut t);
}

#[test]
fn in_subtree_and_is_root() {
    let (mut t, root) = fresh();
    let a = root.child(&mut t);
    let b = root.child(&mut t);
    let _aa = a.child(&mut t);
    assert!(t.is_root(0));
    assert!(!t.is_root(1));
    assert!(t.in_subtree(3, 0));
    assert!(t.in_subtree(3, 1));
    assert!(!t.in_subtree(3, 2));
    assert!(!t.in_subtree(0, 1));
    assert!(t.in_subtree(2, 2));
    let _ = b;
}

#[test]
fn guard_round_trip_restores_state() {
    let (mut t, root) = fresh();
    let child = root.child(&mut t);
    let c = root.shut_down(&mut t);
    assert_eq!(root.state(&t), ShutdownState::Complete);
    let g = child.guard(&mut t);
    assert_eq!(root.state(&t), ShutdownState::ShuttingDown);
    assert_eq!(child.state(&t), ShutdownState::ShuttingDown);
    assert_eq!(root.guard_count(&t), 1);
    g.release(&mut t);
    assert_eq!(root.state(&t), ShutdownState::Complete);
    assert_eq!(child.state(&t), ShutdownState::Complete);
    assert_eq!(root.guard_count(&t), 0);
    c.release(&mut t);
}

#[test]
fn guard_count_walks_deep_chains() {
    let (mut t, root) = fresh();
    let mut scopes = vec![root];
    for _ in 0..6 {
        let next = scopes.last().unwrap().child(&mut t);
        scopes.push(next);
    }
    let mut guards = Vec::new();
    for (depth, s) in scopes.iter().enumerate() {
        for _ in 0..depth {
            guards.push(s.guard(&mut t));
        }
    }
    // depth d holds d guards; the subtree of depth d holds d + ... + 6
    for (depth, s) in scopes.iter().enumerate() {
        let expected: usize = (depth..7).sum();
        assert_eq!(s.guard_count(&t), expected);
    }
    for g in guards {
        g.release(&mut t);
    }
    assert_eq!(scopes[0].guard_count(&t), 0);
    assert!(t.take_notices().is_empty());
}

#[test]
fn sibling_guard_keeps_parent_nonempty() {
    let (mut t, root) = fresh();
    let a = root.child(&mut t);
    let b = root.child(&mut t);
    let ga = a.guard(&mut t);
    let gb = b.guard(&mut t);
    let mut c = root.shut_down(&mut t);
    t.take_notices();
    ga.release(&mut t);
    assert_eq!(t.take_notices(), vec![Notice::Zero(1)]);
    assert!(!c.is_ready(&t));
    gb.release(&mut t);
    assert_eq!(t.take_notices(), vec![Notice::Zero(2), Notice::Zero(0)]);
    assert!(c.is_ready(&t));
    c.release(&mut t);
}
