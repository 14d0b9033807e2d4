//! Laws of shutdown trees and of the polling decisions, over the spec
//! functions that the operations' contracts use.
use vstd::prelude::*;
use crate::counting::indicator;
use crate::model::{NodeView, tree_wf, in_subtree, parent_is, subtree_guards, observed_state, with_child, lemma_zero_iff, lemma_subtree_order, lemma_subtree_guards_monotone, lemma_local_le_subtree, lemma_collected_empty, lemma_child_wf, lemma_push_frame, child_node, parent_after_child, lemma_guard_frame};
use crate::propagation::{latches_only, newly_stopped, owed_on_stop, implicit_stop};
use crate::state::ShutdownState;
use crate::wakeups::{stops_latched, wakeups_owed, completes};
use crate::tree::Notice;
use crate::report::{GuardInfoView, EntryView, LocationView, age_max, oldest_at, is_report_of, entry_faithful, digit_text, decimal, headline_text};
use crate::wait::{WaitState, WaitStage, WaitEvent, WaitAction, wait_table, wait_state_valid, interrupt_state_valid, InterruptState, InterruptStage, InterruptEvent, InterruptAction, interrupt_table};

verus! {

/// A scope reports `Running` exactly while it is not stopped, `Complete`
/// exactly when it is stopped and its subtree holds no guard, and
/// `ShuttingDown` when it is stopped with guards left in its subtree.
pub proof fn law_state_classification(t: Seq<NodeView>, i: int)
    ensures
        (observed_state(t, i) == ShutdownState::Running) <==> !t[i].stopped,
        (observed_state(t, i) == ShutdownState::ShuttingDown) <==> (t[i].stopped && subtree_guards(t, i) > 0),
        (observed_state(t, i) == ShutdownState::Complete) <==> (t[i].stopped && subtree_guards(t, i) == 0),
{
}

/// A subtree holds no guard exactly when its root holds none of its own and
/// none of its direct children's subtrees holds one: this is what the
/// root's own count and its count of nonempty children decide.
pub proof fn law_empty_subtree(t: Seq<NodeView>, i: int)
    requires
        tree_wf(t),
        0 <= i < t.len(),
    ensures
        subtree_guards(t, i) == 0 <==> (t[i].local_guards == 0 && t[i].nonempty_kids == 0),
{
    lemma_zero_iff(t, i);
}

/// Completion aggregates upward: a guard anywhere in the subtree of a scope
/// keeps that scope from being complete.
pub proof fn law_subtree_guard_blocks_completion(t: Seq<NodeView>, i: int, j: int)
    requires
        tree_wf(t),
        0 <= i < t.len(),
        0 <= j < t.len(),
        in_subtree(t, j, i),
        t[j].local_guards > 0,
    ensures
        subtree_guards(t, i) > 0,
        observed_state(t, i) != ShutdownState::Complete,
{
    lemma_local_le_subtree(t, j);
    lemma_subtree_guards_monotone(t, j, i);
}

/// A stopped scope's live descendants are stopped: no tree is ever left with a
/// live scope running below a stopped one.
pub proof fn law_stopped_scope_stops_below(t: Seq<NodeView>, i: int, j: int)
    requires
        tree_wf(t),
        0 <= i < t.len(),
        0 <= j < t.len(),
        t[i].stopped,
        in_subtree(t, j, i),
        !t[j].collected,
    ensures
        t[j].stopped,
{
}

/// A collected scope holds no guard in its subtree, and its whole subtree is
/// collected.
pub proof fn law_collected_scope(t: Seq<NodeView>, i: int, j: int)
    requires
        tree_wf(t),
        0 <= i < t.len(),
        0 <= j < t.len(),
        t[i].collected,
        in_subtree(t, j, i),
    ensures
        subtree_guards(t, i) == 0,
        t[j].collected,
{
    lemma_collected_empty(t, i);
}

/// Stopping a scope stops every live scope of its subtree, never touches a
/// scope outside it (a stop travels neither up nor sideways), and never
/// un-stops anything.
pub proof fn law_stop_scope(a: Seq<NodeView>, b: Seq<NodeView>, node: int)
    requires
        tree_wf(a),
        0 <= node < a.len(),
        latches_only(a, b),
        forall|j: int| 0 <= j < a.len() ==> #[trigger] b[j].stopped == (a[j].stopped || newly_stopped(a, node, j)),
    ensures
        forall|j: int| 0 <= j < a.len() && in_subtree(a, j, node) && !a[j].collected ==> #[trigger] b[j].stopped,
        forall|j: int| 0 <= j < a.len() && !in_subtree(a, j, node) ==> #[trigger] b[j].stopped == a[j].stopped,
        forall|j: int| 0 <= j < a.len() && a[j].stopped ==> #[trigger] b[j].stopped,
        forall|j: int| 0 <= j < a.len() ==> #[trigger] subtree_guards(b, j) == subtree_guards(a, j),
{
    crate::propagation::lemma_latches_frame(a, b);
}

/// A stop of a child never reaches its parent.
pub proof fn law_stop_not_upward(t: Seq<NodeView>, c: int, p: int)
    requires
        tree_wf(t),
        0 <= c < t.len(),
        parent_is(t, c, p),
    ensures
        !in_subtree(t, p, c),
        !newly_stopped(t, c, p),
{
    assert(t[c].ancestors[0] < c);
    if in_subtree(t, p, c) {
        lemma_subtree_order(t, p, c);
    }
}

/// Stopping a scope that is stopped already changes nothing and owes no
/// wake-up.
pub proof fn law_stop_idempotent(t: Seq<NodeView>, node: int)
    requires
        tree_wf(t),
        0 <= node < t.len(),
        t[node].stopped,
    ensures
        forall|j: int| !#[trigger] newly_stopped(t, node, j),
        forall|z: crate::tree::Notice| !#[trigger] owed_on_stop(t, node, z),
{
    assert forall|j: int| !#[trigger] newly_stopped(t, node, j) by {
        if newly_stopped(t, node, j) {
            assert(in_subtree(t, j, node));
        }
    }
}

/// Creating a child is transparent to every existing scope: states and guard
/// totals stay as they were (children do not count as guards), and the child
/// is stopped from birth exactly when its parent is stopped.
pub proof fn law_child_creation_transparent(a: Seq<NodeView>, p: int)
    requires
        tree_wf(a),
        0 <= p < a.len(),
        !a[p].collected,
    ensures
        ({
            let b = with_child(a, p);
            &&& tree_wf(b)
            &&& b.len() == a.len() + 1
            &&& forall|i: int| 0 <= i < a.len() ==> #[trigger] subtree_guards(b, i) == subtree_guards(a, i)
            &&& forall|i: int| 0 <= i < a.len() ==> #[trigger] observed_state(b, i) == observed_state(a, i)
            &&& b[a.len() as int].stopped == a[p].stopped
            &&& subtree_guards(b, a.len() as int) == 0
        }),
{
    lemma_child_wf(a, p);
    let n = a.len() as int;
    let m2 = a.update(p, parent_after_child(a, p));
    assert forall|j: int| 0 <= j < n implies (#[trigger] m2[j]).ancestors == a[j].ancestors
        && m2[j].local_guards == a[j].local_guards by {}
    lemma_guard_frame(a, m2);
    let v = child_node(a, p);
    assert forall|k: int| 0 <= k < v.ancestors.len() implies 0 <= #[trigger] v.ancestors[k] < m2.len() by {
        if k > 0 {
            assert(v.ancestors[k] == a[p].ancestors[k - 1]);
            assert(a[p].ancestors[k - 1] < p);
        }
    }
    assert(crate::model::structured(m2)) by {
        assert forall|j: int, k: int| 0 <= j < m2.len() && 0 <= k < m2[j].ancestors.len() implies {
            &&& 0 <= (#[trigger] m2[j].ancestors[k]) < j
            &&& m2[m2[j].ancestors[k]].ancestors == m2[j].ancestors.skip(k + 1)
        } by {
            assert(a[j].ancestors[k] < j);
        }
    }
    lemma_push_frame(m2, v);
    let b = with_child(a, p);
    assert forall|i: int| 0 <= i < n implies #[trigger] observed_state(b, i) == observed_state(a, i) by {
        assert(b[i].stopped == a[i].stopped);
    }
}

/// A guard taken and then released leaves every guard total, and so every
/// state, as it was.
pub proof fn law_guard_round_trip(a: Seq<NodeView>, b: Seq<NodeView>, c: Seq<NodeView>, x: int)
    requires
        a.len() == b.len(),
        forall|j: int| 0 <= j < a.len() ==> (#[trigger] b[j]).ancestors == a[j].ancestors && b[j].stopped == a[j].stopped,
        forall|j: int| 0 <= j < a.len() ==> (#[trigger] c[j]).stopped == b[j].stopped,
        0 <= x < a.len(),
        forall|i: int| #[trigger] subtree_guards(b, i) == subtree_guards(a, i) + indicator(in_subtree(a, x, i)),
        forall|i: int| #[trigger] subtree_guards(c, i) == subtree_guards(b, i) - indicator(in_subtree(b, x, i)),
    ensures
        forall|i: int| #[trigger] subtree_guards(c, i) == subtree_guards(a, i),
        forall|i: int| 0 <= i < a.len() ==> #[trigger] observed_state(c, i) == observed_state(a, i),
{
    assert(b[x].ancestors == a[x].ancestors);
    assert forall|i: int| #[trigger] subtree_guards(c, i) == subtree_guards(a, i) by {
        assert(in_subtree(b, x, i) == in_subtree(a, x, i));
        assert(subtree_guards(b, i) == subtree_guards(a, i) + indicator(in_subtree(a, x, i)));
    }
    assert forall|i: int| 0 <= i < a.len() implies #[trigger] observed_state(c, i) == observed_state(a, i) by {
        assert(subtree_guards(c, i) == subtree_guards(a, i));
    }
}

/// A guard taken on a stopped scope delays its completion like any other.
pub proof fn law_guard_delays_completion(a: Seq<NodeView>, b: Seq<NodeView>, x: int)
    requires
        0 <= x < a.len(),
        forall|i: int| #[trigger] subtree_guards(b, i) == subtree_guards(a, i) + indicator(in_subtree(a, x, i)),
    ensures
        subtree_guards(b, x) > 0,
        observed_state(b, x) != ShutdownState::Complete,
{
    assert(in_subtree(a, x, x));
    assert(subtree_guards(b, x) == subtree_guards(a, x) + indicator(in_subtree(a, x, x)));
}

/// Giving up the last handle of a root initiates shutdown; giving up a handle
/// of a child, or any handle but the last, does not.
pub proof fn law_implicit_stop(t: Seq<NodeView>, node: int)
    ensures
        implicit_stop(t, node) <==> (t[node].handles == 1 && t[node].ancestors.len() == 0),
        t[node].ancestors.len() > 0 ==> !implicit_stop(t, node),
{
}

/// Every round of waiting and every poll starts in a consistent state.
pub proof fn law_start_states_valid(h: bool)
    ensures
        wait_state_valid(WaitState { stage: WaitStage::Top, has_listener: h }),
        interrupt_state_valid(InterruptState { stage: InterruptStage::Top, has_listener: h }),
{
}


/// Giving up a handle that does not initiate shutdown (any handle of a child,
/// or a root handle that is not the last) changes no guard total and no state:
/// dropping a child's handle is transparent to the whole tree.
pub proof fn law_handle_release_transparent(a: Seq<NodeView>, b: Seq<NodeView>, node: int)
    requires
        a.len() == b.len(),
        0 <= node < a.len(),
        forall|j: int| 0 <= j < a.len() ==> #[trigger] b[j] == (NodeView {
            stopped: b[j].stopped,
            collected: b[j].collected,
            live_kids: b[j].live_kids,
            handles: (a[j].handles - (if j == node { 1int } else { 0int })) as nat,
            ..a[j]
        }),
        forall|j: int| 0 <= j < a.len() ==> #[trigger] b[j].stopped
            == (a[j].stopped || (implicit_stop(a, node) && newly_stopped(a, node, j))),
        !implicit_stop(a, node),
    ensures
        forall|i: int| #[trigger] subtree_guards(b, i) == subtree_guards(a, i),
        forall|i: int| 0 <= i < a.len() ==> #[trigger] observed_state(b, i) == observed_state(a, i),
{
    assert forall|j: int| 0 <= j < a.len() implies (#[trigger] a[j]).ancestors == b[j].ancestors
        && a[j].local_guards == b[j].local_guards by {
        assert(b[j] == (NodeView {
            stopped: b[j].stopped,
            collected: b[j].collected,
            live_kids: b[j].live_kids,
            handles: (a[j].handles - (if j == node { 1int } else { 0int })) as nat,
            ..a[j]
        }));
    }
    lemma_guard_frame(a, b);
    assert forall|i: int| 0 <= i < a.len() implies #[trigger] observed_state(b, i) == observed_state(a, i) by {
        assert(b[i].stopped == a[i].stopped);
    }
}

/// A waiter finishes only once it has seen the awaited condition hold, gives
/// control back only while a listener is registered (so that a wake-up will
/// come), and never registers a second listener.
pub proof fn law_wait_decisions(s: WaitState, e: WaitEvent)
    requires
        wait_state_valid(s),
    ensures
        wait_state_valid(wait_table(s, e).0),
        wait_table(s, e).1 == WaitAction::Finish ==> e == WaitEvent::Checked(true),
        wait_table(s, e).1 == WaitAction::Suspend ==> wait_table(s, e).0.has_listener,
        wait_table(s, e).1 == WaitAction::RegisterAndCheck ==> !wait_table(s, e).0.has_listener,
        e == WaitEvent::Checked(true) && s.stage != WaitStage::Awaiting ==> wait_table(s, e).1 == WaitAction::Finish,
{
}

/// A stop-aware wrapper ends with its terminal value only once it has seen its
/// scope stopped or gone, and at once when it sees that; it hands over the
/// wrapped value's output only when there is one, and gives control back
/// only with a stop listener registered, after the wrapped value was pending
/// and the scope seen running.
pub proof fn law_interrupt_decisions(s: InterruptState, e: InterruptEvent)
    requires
        interrupt_state_valid(s),
    ensures
        interrupt_state_valid(interrupt_table(s, e).0),
        interrupt_table(s, e).1 == InterruptAction::Suspend ==> interrupt_table(s, e).0.has_listener,
        interrupt_table(s, e).1 == InterruptAction::Terminate ==> (e == InterruptEvent::Checked(true) || e == InterruptEvent::Gone),
        interrupt_table(s, e).1 == InterruptAction::Deliver ==> e == InterruptEvent::WrappedReady,
        interrupt_table(s, e).1 == InterruptAction::Suspend ==> interrupt_table(s, e).0.has_listener == s.has_listener
            && s.stage == InterruptStage::Listening && e == InterruptEvent::StillPending,
        e == InterruptEvent::Checked(true) && (s.stage == InterruptStage::Top || s.stage == InterruptStage::Registering
            || s.stage == InterruptStage::Rechecking) ==> interrupt_table(s, e).1 == InterruptAction::Terminate,
{
}

/// Stopping latches: a scope that is not running never runs again, whatever
/// changes of the tree follow (every operation keeps the latches), although
/// it may move between shutting down and complete as guards come and go.
pub proof fn law_running_never_returns(a: Seq<NodeView>, b: Seq<NodeView>, i: int)
    requires
        stops_latched(a, b),
        0 <= i < a.len(),
        observed_state(a, i) != ShutdownState::Running,
    ensures
        observed_state(b, i) != ShutdownState::Running,
{
    assert(a[i].stopped);
    assert(b[i].stopped);
}

/// Keeping the latches composes: over any run of changes that each keep
/// them, they are kept.
pub proof fn law_latches_compose(a: Seq<NodeView>, b: Seq<NodeView>, c: Seq<NodeView>)
    requires
        stops_latched(a, b),
        stops_latched(b, c),
    ensures
        stops_latched(a, c),
{
    assert forall|i: int| 0 <= i < a.len() && a[i].stopped implies #[trigger] c[i].stopped by {
        assert(b[i].stopped);
    }
}

/// A pending waiter is woken: a waiter gives control back only holding a
/// listener, and a change of the tree that completes shutdown of a scope, or
/// stops it, queues the completion (or stop) wake-up of that scope.
pub proof fn law_pending_waiter_woken(
    s: WaitState,
    e: WaitEvent,
    a: Seq<NodeView>,
    b: Seq<NodeView>,
    added: Seq<Notice>,
    i: int,
)
    requires
        wait_state_valid(s),
        wait_table(s, e).1 == WaitAction::Suspend,
        wakeups_owed(a, b, added),
        0 <= i < a.len(),
    ensures
        wait_table(s, e).0.has_listener,
        !completes(a, i) && completes(b, i) ==> added.contains(Notice::Zero(i as usize))
            && observed_state(b, i) == ShutdownState::Complete,
        !a[i].stopped && b[i].stopped ==> added.contains(Notice::Stop(i as usize)),
{
    assert(b[i] == b[i]);
}

/// Shutting a scope down a second time changes no stop latch, no guard total
/// and no state anywhere, and owes no wake-up.
pub proof fn law_shut_down_twice(a: Seq<NodeView>, b: Seq<NodeView>, c: Seq<NodeView>, node: int)
    requires
        0 <= node < a.len(),
        !a[node].collected,
        tree_wf(b),
        b.len() == a.len(),
        c.len() == b.len(),
        forall|j: int| 0 <= j < a.len() ==> #[trigger] b[j] == (NodeView {
            stopped: a[j].stopped || newly_stopped(a, node, j),
            pins: a[j].pins + (if j == node { 1nat } else { 0nat }),
            ..a[j]
        }),
        forall|j: int| 0 <= j < b.len() ==> #[trigger] c[j] == (NodeView {
            stopped: b[j].stopped || newly_stopped(b, node, j),
            pins: b[j].pins + (if j == node { 1nat } else { 0nat }),
            ..b[j]
        }),
    ensures
        forall|z: Notice| !#[trigger] owed_on_stop(b, node, z),
        forall|j: int| 0 <= j < b.len() ==> #[trigger] c[j].stopped == b[j].stopped,
        forall|j: int| #[trigger] subtree_guards(c, j) == subtree_guards(b, j),
        forall|j: int| 0 <= j < b.len() ==> #[trigger] observed_state(c, j) == observed_state(b, j),
{
    assert(b[node].stopped) by {
        assert(in_subtree(a, node, node));
        if !a[node].stopped {
            assert(newly_stopped(a, node, node));
        }
    }
    law_stop_idempotent(b, node);
    assert forall|j: int| 0 <= j < b.len() implies (#[trigger] b[j]).ancestors == c[j].ancestors
        && b[j].local_guards == c[j].local_guards && c[j].stopped == b[j].stopped by {
        assert(!newly_stopped(b, node, j));
    }
    lemma_guard_frame(b, c);
    assert forall|j: int| 0 <= j < b.len() implies #[trigger] observed_state(c, j) == observed_state(b, j) by {
        assert(c[j].stopped == b[j].stopped);
    }
}

/// Merging two ages keeps the older: a known age is never lost, the merge is
/// at least each known age, and it is one of the two.
pub proof fn law_age_merge_keeps_oldest(a: Option<u128>, b: Option<u128>)
    ensures
        a is Some ==> age_max(a, b) is Some && age_max(a, b)->0 >= a->0,
        b is Some ==> age_max(a, b) is Some && age_max(a, b)->0 >= b->0,
        age_max(a, b) == a || age_max(a, b) == b,
{
}

/// The oldest age at a location is at least the age of every guard created
/// there whose age is known.
pub proof fn law_oldest_at_dominates(infos: Seq<GuardInfoView>, l: LocationView, k: int)
    requires
        0 <= k < infos.len(),
        infos[k].location == l,
    ensures
        infos[k].age is Some ==> oldest_at(infos, l) is Some && oldest_at(infos, l)->0 >= infos[k].age->0,
    decreases infos.len(),
{
    let n = infos.len() - 1;
    let init = infos.drop_last();
    law_age_merge_keeps_oldest(oldest_at(init, l), infos.last().age);
    if k < n {
        assert(init[k] == infos[k]);
        law_oldest_at_dominates(init, l, k);
    }
}

/// The oldest age at a location is the age of one of the guards created
/// there, or unknown.
pub proof fn law_oldest_at_attained(infos: Seq<GuardInfoView>, l: LocationView)
    ensures
        oldest_at(infos, l) is Some ==> exists|j: int| 0 <= j < infos.len() && infos[j].location == l
            && #[trigger] infos[j].age == oldest_at(infos, l),
    decreases infos.len(),
{
    if infos.len() > 0 {
        let n = infos.len() - 1;
        let init = infos.drop_last();
        law_age_merge_keeps_oldest(oldest_at(init, l), infos.last().age);
        law_oldest_at_attained(init, l);
        if oldest_at(infos, l) is Some {
            if infos.last().location == l && oldest_at(infos, l) == infos.last().age {
                assert(infos[n].age == oldest_at(infos, l));
            } else {
                assert(oldest_at(infos, l) == oldest_at(init, l));
                let j = choose|j: int| 0 <= j < init.len() && init[j].location == l
                    && #[trigger] init[j].age == oldest_at(init, l);
                assert(infos[j] == init[j]);
            }
        }
    }
}

/// Every entry of a report gives, as the age of its site, the age of the
/// oldest guard created there: at least the known age of each of them.
pub proof fn law_report_gives_oldest_age(r: Seq<EntryView>, infos: Seq<GuardInfoView>, i: int, k: int)
    requires
        is_report_of(r, infos),
        0 <= i < r.len(),
        0 <= k < infos.len(),
        infos[k].location == r[i].location,
        infos[k].age is Some,
    ensures
        r[i].oldest_age is Some,
        r[i].oldest_age->0 >= infos[k].age->0,
{
    assert(entry_faithful(infos, r[i]));
    law_oldest_at_dominates(infos, r[i].location, k);
}

/// The action a waiter in `stage` waits to have carried out.
pub open spec fn wait_pending_action(stage: WaitStage) -> WaitAction {
    match stage {
        WaitStage::Top => WaitAction::CheckReady,
        WaitStage::Registering => WaitAction::RegisterAndCheck,
        WaitStage::Awaiting => WaitAction::AwaitListener,
    }
}

/// What the owner of a waiter observes while nothing happens: the awaited
/// condition does not hold and no listener fires.
pub open spec fn wait_quiet_reply(a: WaitAction) -> WaitEvent {
    match a {
        WaitAction::AwaitListener => WaitEvent::StillPending,
        _ => WaitEvent::Checked(false),
    }
}

/// Carrying out action `a` from state `s` while nothing happens, the waiter
/// gives control back within `n` steps.
pub open spec fn wait_suspends_within(s: WaitState, a: WaitAction, n: nat) -> bool
    decreases n,
{
    if a == WaitAction::Suspend {
        true
    } else if a == WaitAction::Finish || n == 0 {
        false
    } else {
        let r = wait_table(s, wait_quiet_reply(a));
        wait_suspends_within(r.0, r.1, (n - 1) as nat)
    }
}

/// A poll of a waiter whose condition does not hold returns: fed only
/// "not ready" and "listener still pending", a waiter in any consistent state
/// gives control back within three steps, never finishing. In particular a
/// waiter that holds a listener, seeing the condition false and the listener
/// pending, gives control back at once.
pub proof fn law_quiet_waiter_suspends(s: WaitState)
    requires
        wait_state_valid(s),
    ensures
        wait_suspends_within(s, wait_pending_action(s.stage), 3),
        s.stage == WaitStage::Top && s.has_listener ==> ({
            let r = wait_table(s, WaitEvent::Checked(false));
            &&& r.1 == WaitAction::AwaitListener
            &&& wait_table(r.0, WaitEvent::StillPending).1 == WaitAction::Suspend
        }),
{
    reveal_with_fuel(wait_suspends_within, 4);
}

/// What the owner of a stop-aware wrapper observes while nothing happens: the
/// scope is running and still there, the wrapped value is pending and no
/// listener fires.
pub open spec fn interrupt_quiet_reply(a: InterruptAction) -> InterruptEvent {
    match a {
        InterruptAction::PollWrapped => InterruptEvent::WrappedPending,
        InterruptAction::PollListener => InterruptEvent::StillPending,
        _ => InterruptEvent::Checked(false),
    }
}

/// Carrying out action `a` from state `s` while nothing happens, the wrapper
/// gives control back within `n` steps.
pub open spec fn interrupt_suspends_within(s: InterruptState, a: InterruptAction, n: nat) -> bool
    decreases n,
{
    if a == InterruptAction::Suspend {
        true
    } else if a == InterruptAction::Terminate || a == InterruptAction::Deliver || n == 0 {
        false
    } else {
        let r = interrupt_table(s, interrupt_quiet_reply(a));
        interrupt_suspends_within(r.0, r.1, (n - 1) as nat)
    }
}

/// A poll of a stop-aware wrapper whose scope runs and whose wrapped value is
/// pending returns: from any consistent state it gives control back within
/// five steps, neither ending nor handing anything over.
pub proof fn law_quiet_wrapper_suspends(s: InterruptState)
    requires
        interrupt_state_valid(s),
    ensures
        interrupt_suspends_within(s, crate::wait::interrupt_pending_action(s.stage), 5),
{
    reveal_with_fuel(interrupt_suspends_within, 6);
}

/// `c` is one of the decimal digits `0` to `9`.
pub open spec fn is_digit(c: char) -> bool {
    '0' <= c && c <= '9'
}

/// The value of the decimal digit `c`.
pub open spec fn digit_value(c: char) -> int {
    (c as int) - ('0' as int)
}

/// The number that the digits `s` spell in base ten, most significant first.
pub open spec fn read_decimal(s: Seq<char>) -> int
    decreases s.len(),
{
    if s.len() == 0 {
        0
    } else {
        read_decimal(s.drop_last()) * 10 + digit_value(s.last())
    }
}

/// `s` is made of decimal digits only.
pub open spec fn all_digits(s: Seq<char>) -> bool {
    forall|i: int| 0 <= i < s.len() ==> is_digit(#[trigger] s[i])
}

/// `s` ends with `t`.
pub open spec fn ends_with(s: Seq<char>, t: Seq<char>) -> bool {
    t.len() <= s.len() && s.subrange(s.len() - t.len(), s.len() as int) == t
}

/// `h` starts with the number `n` written in decimal: `k` digits, not
/// followed by another digit, that read back as `n`.
pub open spec fn leads_with_number(h: Seq<char>, k: int, n: nat) -> bool {
    &&& 0 < k < h.len()
    &&& all_digits(h.take(k))
    &&& !is_digit(h[k])
    &&& read_decimal(h.take(k)) == n
}

/// The text of a digit is that single digit character.
proof fn lemma_digit_text(d: nat)
    requires
        d < 10,
    ensures
        digit_text(d).len() == 1,
        is_digit(digit_text(d)[0]),
        digit_value(digit_text(d)[0]) == d,
{
    reveal_strlit("0");
    reveal_strlit("1");
    reveal_strlit("2");
    reveal_strlit("3");
    reveal_strlit("4");
    reveal_strlit("5");
    reveal_strlit("6");
    reveal_strlit("7");
    reveal_strlit("8");
    reveal_strlit("9");
}

/// Decimal notation reads back: the text of `n` is a nonempty run of digits
/// that spells `n` in base ten, with no leading zero unless `n` is zero.
pub proof fn law_decimal_reads_back(n: nat)
    ensures
        decimal(n).len() >= 1,
        all_digits(decimal(n)),
        read_decimal(decimal(n)) == n,
        n > 0 ==> decimal(n)[0] != '0',
    decreases n,
{
    if n < 10 {
        lemma_digit_text(n);
        let s = decimal(n);
        assert(s.drop_last() =~= Seq::<char>::empty());
        assert(read_decimal(s.drop_last()) == 0);
        assert(read_decimal(s) == digit_value(s.last()));
        if n > 0 {
            assert(digit_value(s[0]) != 0);
        }
    } else {
        let q = n / 10;
        let d = n % 10;
        law_decimal_reads_back(q);
        lemma_digit_text(d);
        let p = decimal(q);
        let s = decimal(n);
        assert(s == p + digit_text(d));
        assert(s.drop_last() =~= p);
        assert(s.last() == digit_text(d)[0]);
        assert(n == q * 10 + d);
        assert(read_decimal(s) == read_decimal(s.drop_last()) * 10 + digit_value(s.last()));
        assert(read_decimal(s) == read_decimal(p) * 10 + d);
        assert forall|i: int| 0 <= i < s.len() implies is_digit(#[trigger] s[i]) by {
            if i < p.len() {
                assert(s[i] == p[i]);
            }
        }
        assert(s[0] == p[0]);
    }
}

/// The headline of a report with `n >= 1` outstanding guards starts with the
/// number `n` in decimal, and ends in "guards:" exactly when `n` is not one,
/// in "guard:" exactly when it is.
pub proof fn law_headline_counts_and_pluralises(n: nat)
    requires
        n >= 1,
    ensures
        exists|k: int| #[trigger] leads_with_number(headline_text(n), k, n),
        ends_with(headline_text(n), "guards:"@) <==> n != 1,
        ends_with(headline_text(n), "guard:"@) <==> n == 1,
{
    reveal_strlit(" outstanding guard");
    reveal_strlit("s");
    reveal_strlit(":");
    reveal_strlit("guards:");
    reveal_strlit("guard:");
    law_decimal_reads_back(n);
    let p = decimal(n);
    let h = headline_text(n);
    let k = p.len() as int;
    assert(h.take(k) =~= p);
    assert(h[k] == ' ');
    assert(leads_with_number(h, k, n));
    let l = h.len() as int;
    if n == 1 {
        assert(h.subrange(l - 6, l) =~= "guard:"@);
        assert(h[l - 2] == 'd');
        assert(!ends_with(h, "guards:"@)) by {
            if ends_with(h, "guards:"@) {
                assert(h.subrange(l - 7, l)[5] == 's');
            }
        }
    } else {
        assert(h.subrange(l - 7, l) =~= "guards:"@);
        assert(!ends_with(h, "guard:"@)) by {
            if ends_with(h, "guard:"@) {
                assert(h.subrange(l - 6, l)[4] == 'd');
            }
        }
    }
}

} // verus!
