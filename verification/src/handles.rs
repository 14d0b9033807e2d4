//! Handles onto the scopes of a shutdown tree: the scope handle itself, the
//! guards that delay completion, the wrappers that carry a guard or react to
//! the stop signal, and the waiters that keep a scope's state alive.
//!
//! A handle names its scope by arena index; every operation takes the tree it
//! belongs to. Sharing the tree and releasing handles when they go out of use
//! is the business of whoever owns the tree.
use vstd::prelude::*;
use crate::counting::indicator;
use crate::model::{NodeView, fresh_node, with_child, in_subtree, subtree_guards, observed_state};
use crate::propagation::{newly_stopped, stop_owed_exactly, implicit_stop};
use crate::accounting::release_notices;
use crate::state::ShutdownState;
use crate::tree::ShutdownTree;

verus! {

/// A handle naming one shutdown scope. Two handles are equal when they name
/// the same scope.
#[derive(Debug, PartialEq, Eq, Structural)]
pub struct Swansong {
    node: usize,
}

/// The presence of a guard delays the completion of shutdown of its home
/// scope and of every ancestor. Two guards are equal when they share a home.
#[derive(Debug, PartialEq, Eq, Structural)]
pub struct Guard {
    home: usize,
}

/// A value carried together with a guard: shutdown of the guard's home cannot
/// complete while it exists.
#[derive(Debug)]
pub struct Guarded<T> {
    guard: Guard,
    wrapped_type: T,
}

/// A value that stops being driven once its scope is stopped or gone; it may
/// also carry a guard.
#[derive(Debug)]
pub struct Interrupt<T> {
    node: usize,
    wrapped_type: T,
    guard: Option<Guard>,
}

/// A value that stops being driven once its scope is stopped or gone, and
/// that may delay shutdown as a guard does until it is released.
#[derive(Debug)]
pub struct Stop<T> {
    node: usize,
    wrapped_type: T,
    guarded: bool,
}

/// A waiter that is ready once its scope is stopped and no guard is left in its
/// subtree. It keeps the scope's state alive until released.
#[derive(Debug)]
pub struct ShutdownCompletion {
    node: usize,
    resolved: bool,
}

/// A waiter that is ready once its scope is stopped, whatever guards remain. It
/// keeps the scope's state alive until released.
#[derive(Debug)]
pub struct ShuttingDown {
    node: usize,
}

impl Swansong {
    /// The scope this handle names.
    pub closed spec fn scope(&self) -> int {
        self.node as int
    }

    /// The arena index of the scope this handle names.
    pub fn index(&self) -> (i: usize)
        ensures
            i == self.scope(),
    {
        self.node
    }

    /// Two handles are equal exactly when they name the same scope.
    pub proof fn lemma_eq_iff_same_scope(a: Swansong, b: Swansong)
        ensures
            (a == b) <==> (a.scope() == b.scope()),
    {
    }

    /// The handle is usable with `tree`: its scope exists and holds a handle.
    pub open spec fn names_live(&self, tree: &ShutdownTree) -> bool {
        &&& tree.wf()
        &&& tree.valid(self.scope())
        &&& tree@[self.scope()].handles >= 1
    }

    /// Create a new root scope in `tree`, running, and return its first handle.
    pub fn new(tree: &mut ShutdownTree) -> (s: Swansong)
        requires
            old(tree).wf(),
            old(tree)@.len() < usize::MAX,
        ensures
            final(tree).wf(),
            s.scope() == old(tree)@.len(),
            final(tree)@ == old(tree)@.push(fresh_node(false, Seq::empty())),
            final(tree).notices() == old(tree).notices(),
    {
        let node = tree.new_root();
        Swansong { node }
    }

    /// Create a child scope of this one and return its first handle. The child
    /// is stopped from birth if this scope is stopped.
    pub fn child(&self, tree: &mut ShutdownTree) -> (c: Swansong)
        requires
            self.names_live(old(tree)),
            old(tree)@.len() < usize::MAX,
        ensures
            final(tree).wf(),
            c.scope() == old(tree)@.len(),
            final(tree)@ == with_child(old(tree)@, self.scope()),
            final(tree).notices() == old(tree).notices(),
    {
        let node = tree.new_child(self.node);
        Swansong { node }
    }

    /// Another handle naming the same scope.
    pub fn clone_handle(&self, tree: &mut ShutdownTree) -> (c: Swansong)
        requires
            self.names_live(old(tree)),
            old(tree)@[self.scope()].handles < usize::MAX,
        ensures
            final(tree).wf(),
            c == *self,
            final(tree)@ == old(tree)@.update(self.scope(), NodeView { handles: old(tree)@[self.scope()].handles + 1, ..old(tree)@[self.scope()] }),
            final(tree).notices() == old(tree).notices(),
    {
        tree.swansong_clone(self.node);
        Swansong { node: self.node }
    }

    /// Give up this handle. Giving up the last handle of a root initiates
    /// shutdown, as [`Swansong::shut_down`] does; giving up the last handle of
    /// a child does not.
    pub fn release(self, tree: &mut ShutdownTree)
        requires
            self.names_live(old(tree)),
        ensures
            final(tree).wf(),
            final(tree)@.len() == old(tree)@.len(),
            forall|j: int| 0 <= j < old(tree)@.len() ==> #[trigger] final(tree)@[j] == (NodeView {
                stopped: final(tree)@[j].stopped,
                collected: final(tree)@[j].collected,
                live_kids: final(tree)@[j].live_kids,
                handles: (old(tree)@[j].handles - (if j == self.scope() { 1int } else { 0int })) as nat,
                ..old(tree)@[j]
            }),
            forall|j: int| 0 <= j < old(tree)@.len() ==> #[trigger] final(tree)@[j].stopped
                == (old(tree)@[j].stopped || (implicit_stop(old(tree)@, self.scope()) && newly_stopped(old(tree)@, self.scope(), j))),
            forall|j: int| 0 <= j < old(tree)@.len() && old(tree)@[j].collected ==> #[trigger] final(tree)@[j].collected,
            forall|j: int| 0 <= j < old(tree)@.len() && #[trigger] final(tree)@[j].collected != old(tree)@[j].collected
                ==> in_subtree(old(tree)@, self.scope(), j),
            final(tree).notices().len() >= old(tree).notices().len(),
            final(tree).notices().take(old(tree).notices().len() as int) == old(tree).notices(),
            implicit_stop(old(tree)@, self.scope()) ==> stop_owed_exactly(
                final(tree).notices().skip(old(tree).notices().len() as int), old(tree)@, self.scope()),
            !implicit_stop(old(tree)@, self.scope()) ==> final(tree).notices() == old(tree).notices(),
    {
        tree.drop_handle(self.node);
    }

    /// Initiate graceful shutdown: this scope and every live scope below it
    /// are stopped, and the returned waiter is ready once the subtree holds no
    /// guard.
    pub fn shut_down(&self, tree: &mut ShutdownTree) -> (c: ShutdownCompletion)
        requires
            self.names_live(old(tree)),
            old(tree)@[self.scope()].pins < usize::MAX,
        ensures
            final(tree).wf(),
            c.scope() == self.scope(),
            !c.is_resolved(),
            final(tree)@.len() == old(tree)@.len(),
            forall|j: int| 0 <= j < old(tree)@.len() ==> #[trigger] final(tree)@[j] == (NodeView {
                stopped: old(tree)@[j].stopped || newly_stopped(old(tree)@, self.scope(), j),
                pins: old(tree)@[j].pins + (if j == self.scope() { 1nat } else { 0nat }),
                ..old(tree)@[j]
            }),
            final(tree).notices().len() >= old(tree).notices().len(),
            final(tree).notices().take(old(tree).notices().len() as int) == old(tree).notices(),
            stop_owed_exactly(final(tree).notices().skip(old(tree).notices().len() as int), old(tree)@, self.scope()),
    {
        proof {
            assert(!old(tree)@[self.scope()].collected);
        }
        tree.stop(self.node);
        let ghost s = tree@;
        let ghost sn = tree.notices();
        proof {
            assert(s[self.scope()] == (NodeView { stopped: s[self.scope()].stopped, ..old(tree)@[self.scope()] }));
        }
        tree.pin(self.node);
        proof {
            assert forall|j: int| 0 <= j < old(tree)@.len() implies #[trigger] tree@[j] == (NodeView {
                stopped: old(tree)@[j].stopped || newly_stopped(old(tree)@, self.scope(), j),
                pins: old(tree)@[j].pins + (if j == self.scope() { 1nat } else { 0nat }),
                ..old(tree)@[j]
            }) by {
                assert(s[j] == (NodeView { stopped: s[j].stopped, ..old(tree)@[j] }));
            }
        }
        ShutdownCompletion { node: self.node, resolved: false }
    }

    /// A waiter for the completion of shutdown of this scope, without
    /// initiating it.
    pub fn completion(&self, tree: &mut ShutdownTree) -> (c: ShutdownCompletion)
        requires
            self.names_live(old(tree)),
            old(tree)@[self.scope()].pins < usize::MAX,
        ensures
            final(tree).wf(),
            c.scope() == self.scope(),
            !c.is_resolved(),
            final(tree)@ == old(tree)@.update(self.scope(), NodeView { pins: old(tree)@[self.scope()].pins + 1, ..old(tree)@[self.scope()] }),
            final(tree).notices() == old(tree).notices(),
    {
        tree.pin(self.node);
        ShutdownCompletion { node: self.node, resolved: false }
    }

    /// A waiter for the initiation of shutdown of this scope.
    pub fn shutting_down(&self, tree: &mut ShutdownTree) -> (c: ShuttingDown)
        requires
            self.names_live(old(tree)),
            old(tree)@[self.scope()].pins < usize::MAX,
        ensures
            final(tree).wf(),
            c.scope() == self.scope(),
            final(tree)@ == old(tree)@.update(self.scope(), NodeView { pins: old(tree)@[self.scope()].pins + 1, ..old(tree)@[self.scope()] }),
            final(tree).notices() == old(tree).notices(),
    {
        tree.pin(self.node);
        ShuttingDown { node: self.node }
    }

    /// Whether this scope is running, shutting down, or complete.
    pub fn state(&self, tree: &ShutdownTree) -> (s: ShutdownState)
        requires
            self.names_live(tree),
        ensures
            s == observed_state(tree@, self.scope()),
    {
        tree.state(self.node)
    }

    /// A new guard whose home is this scope.
    pub fn guard(&self, tree: &mut ShutdownTree) -> (g: Guard)
        requires
            self.names_live(old(tree)),
            old(tree)@[self.scope()].local_guards < usize::MAX,
        ensures
            final(tree).wf(),
            g.home() == self.scope(),
            final(tree)@.len() == old(tree)@.len(),
            forall|j: int| 0 <= j < old(tree)@.len() ==> #[trigger] final(tree)@[j] == (NodeView {
                nonempty_kids: final(tree)@[j].nonempty_kids,
                local_guards: old(tree)@[j].local_guards + (if j == self.scope() { 1nat } else { 0nat }),
                ..old(tree)@[j]
            }),
            forall|i: int| #[trigger] subtree_guards(final(tree)@, i) == subtree_guards(old(tree)@, i)
                + indicator(in_subtree(old(tree)@, self.scope(), i)),
            final(tree).notices() == old(tree).notices(),
    {
        proof {
            assert(!old(tree)@[self.scope()].collected);
        }
        tree.increment_guard(self.node);
        Guard { home: self.node }
    }

    /// The number of guards anywhere in the subtree of this scope.
    pub fn guard_count(&self, tree: &ShutdownTree) -> (n: usize)
        requires
            self.names_live(tree),
            subtree_guards(tree@, self.scope()) <= usize::MAX,
        ensures
            n == subtree_guards(tree@, self.scope()),
    {
        tree.guard_count_subtree(self.node)
    }

    /// Wrap a value so that it stops being driven once this scope is stopped.
    pub fn interrupt<T>(&self, wrapped_type: T) -> (i: Interrupt<T>)
        ensures
            i.scope() == self.scope(),
            i.value() == wrapped_type,
            i.guard_home().is_none(),
    {
        Interrupt { node: self.node, wrapped_type, guard: None }
    }

    /// Attach a new guard of this scope to a value.
    pub fn guarded<T>(&self, tree: &mut ShutdownTree, wrapped_type: T) -> (g: Guarded<T>)
        requires
            self.names_live(old(tree)),
            old(tree)@[self.scope()].local_guards < usize::MAX,
        ensures
            final(tree).wf(),
            g.home() == self.scope(),
            g.guard_of().home() == self.scope(),
            g.value() == wrapped_type,
            final(tree)@.len() == old(tree)@.len(),
            forall|j: int| 0 <= j < old(tree)@.len() ==> #[trigger] final(tree)@[j] == (NodeView {
                nonempty_kids: final(tree)@[j].nonempty_kids,
                local_guards: old(tree)@[j].local_guards + (if j == self.scope() { 1nat } else { 0nat }),
                ..old(tree)@[j]
            }),
            forall|i: int| #[trigger] subtree_guards(final(tree)@, i) == subtree_guards(old(tree)@, i)
                + indicator(in_subtree(old(tree)@, self.scope(), i)),
            final(tree).notices() == old(tree).notices(),
    {
        let guard = self.guard(tree);
        Guarded { guard, wrapped_type }
    }
}

impl Guard {
    /// The scope this guard delays.
    pub closed spec fn home(&self) -> int {
        self.home as int
    }

    /// The arena index of this guard's home.
    pub fn index(&self) -> (i: usize)
        ensures
            i == self.home(),
    {
        self.home
    }

    /// Two guards are equal exactly when they share a home.
    pub proof fn lemma_eq_iff_same_home(a: Guard, b: Guard)
        ensures
            (a == b) <==> (a.home() == b.home()),
    {
    }

    /// The guard is usable with `tree`: its home exists and counts it.
    pub open spec fn held_in(&self, tree: &ShutdownTree) -> bool {
        &&& tree.wf()
        &&& tree.valid(self.home())
        &&& tree@[self.home()].local_guards >= 1
    }

    /// Another guard with the same home, counted on its own.
    pub fn clone_guard(&self, tree: &mut ShutdownTree) -> (g: Guard)
        requires
            self.held_in(old(tree)),
            old(tree)@[self.home()].local_guards < usize::MAX,
        ensures
            final(tree).wf(),
            g == *self,
            final(tree)@.len() == old(tree)@.len(),
            forall|j: int| 0 <= j < old(tree)@.len() ==> #[trigger] final(tree)@[j] == (NodeView {
                nonempty_kids: final(tree)@[j].nonempty_kids,
                local_guards: old(tree)@[j].local_guards + (if j == self.home() { 1nat } else { 0nat }),
                ..old(tree)@[j]
            }),
            forall|i: int| #[trigger] subtree_guards(final(tree)@, i) == subtree_guards(old(tree)@, i)
                + indicator(in_subtree(old(tree)@, self.home(), i)),
            final(tree).notices() == old(tree).notices(),
    {
        proof {
            let t = old(tree)@;
            assert(t[self.home()].collected ==> crate::model::unheld(t[self.home()]));
        }
        tree.increment_guard(self.home);
        Guard { home: self.home }
    }

    /// Give up this guard, as dropping it does.
    pub fn release(self, tree: &mut ShutdownTree)
        requires
            self.held_in(old(tree)),
        ensures
            final(tree).wf(),
            final(tree)@.len() == old(tree)@.len(),
            forall|j: int| 0 <= j < old(tree)@.len() ==> #[trigger] final(tree)@[j] == (NodeView {
                nonempty_kids: final(tree)@[j].nonempty_kids,
                collected: final(tree)@[j].collected,
                live_kids: final(tree)@[j].live_kids,
                local_guards: (old(tree)@[j].local_guards - (if j == self.home() { 1int } else { 0int })) as nat,
                ..old(tree)@[j]
            }),
            forall|j: int| 0 <= j < old(tree)@.len() && old(tree)@[j].collected ==> #[trigger] final(tree)@[j].collected,
            forall|j: int| 0 <= j < old(tree)@.len() && #[trigger] final(tree)@[j].collected != old(tree)@[j].collected
                ==> in_subtree(old(tree)@, self.home(), j),
            forall|i: int| #[trigger] subtree_guards(final(tree)@, i) == subtree_guards(old(tree)@, i)
                - indicator(in_subtree(old(tree)@, self.home(), i)),
            final(tree).notices() == old(tree).notices() + release_notices(old(tree)@, self.home()),
    {
        tree.drop_guard(self.home);
    }
}


impl<T> Guarded<T> {
    /// The home of the carried guard.
    pub closed spec fn home(&self) -> int {
        self.guard.home()
    }

    /// The carried value.
    pub closed spec fn value(&self) -> T {
        self.wrapped_type
    }

    /// The carried guard.
    pub closed spec fn guard_of(&self) -> Guard {
        self.guard
    }

    /// Carry `wrapped_type` together with `guard`.
    pub fn from_guard(guard: Guard, wrapped_type: T) -> (g: Guarded<T>)
        ensures
            g.guard_of() == guard,
            g.value() == wrapped_type,
    {
        Guarded { guard, wrapped_type }
    }

    /// The carried value.
    pub fn get_ref(&self) -> (r: &T)
        ensures
            *r == self.value(),
    {
        &self.wrapped_type
    }

    /// The carried value, mutably.
    pub fn get_mut(&mut self) -> (r: &mut T)
        ensures
            *r == old(self).value(),
            final(self).value() == *final(r),
            final(self).guard_of() == old(self).guard_of(),
            final(self).home() == old(self).home(),
    {
        &mut self.wrapped_type
    }

    /// Take the carried value out, giving up the guard: shutdown may then
    /// complete if no other guard is left.
    pub fn into_inner(self, tree: &mut ShutdownTree) -> (v: T)
        requires
            self.guard_of().held_in(old(tree)),
        ensures
            v == self.value(),
            final(tree).wf(),
            final(tree)@.len() == old(tree)@.len(),
            forall|j: int| 0 <= j < old(tree)@.len() ==> #[trigger] final(tree)@[j] == (NodeView {
                nonempty_kids: final(tree)@[j].nonempty_kids,
                collected: final(tree)@[j].collected,
                live_kids: final(tree)@[j].live_kids,
                local_guards: (old(tree)@[j].local_guards - (if j == self.home() { 1int } else { 0int })) as nat,
                ..old(tree)@[j]
            }),
            forall|i: int| #[trigger] subtree_guards(final(tree)@, i) == subtree_guards(old(tree)@, i)
                - indicator(in_subtree(old(tree)@, self.home(), i)),
            final(tree).notices() == old(tree).notices() + release_notices(old(tree)@, self.home()),
    {
        let Guarded { guard, wrapped_type } = self;
        guard.release(tree);
        wrapped_type
    }
}

impl<T> Interrupt<T> {
    /// The arena index of the scope this refers to.
    pub fn index(&self) -> (i: usize)
        ensures
            i == self.scope(),
    {
        self.node
    }

    /// The scope whose stop this value reacts to.
    pub closed spec fn scope(&self) -> int {
        self.node as int
    }

    /// The wrapped value.
    pub closed spec fn value(&self) -> T {
        self.wrapped_type
    }

    /// The home of the carried guard, if any.
    pub closed spec fn guard_home(&self) -> Option<int> {
        match self.guard {
            Some(g) => Some(g.home()),
            None => None,
        }
    }

    /// The wrapped value.
    pub fn get_ref(&self) -> (r: &T)
        ensures
            *r == self.value(),
    {
        &self.wrapped_type
    }

    /// The wrapped value, mutably.
    pub fn get_mut(&mut self) -> (r: &mut T)
        ensures
            *r == old(self).value(),
            final(self).value() == *final(r),
            final(self).scope() == old(self).scope(),
            final(self).guard_home() == old(self).guard_home(),
    {
        &mut self.wrapped_type
    }

    /// Also delay shutdown until this value is released: if the scope is still
    /// alive and this value carries no guard yet, it takes a new guard of its
    /// scope; otherwise nothing changes.
    pub fn guarded(self, tree: &mut ShutdownTree) -> (r: Interrupt<T>)
        requires
            old(tree).wf(),
            old(tree).valid(self.scope()),
            old(tree)@[self.scope()].local_guards < usize::MAX,
        ensures
            final(tree).wf(),
            r.scope() == self.scope(),
            r.value() == self.value(),
            ({
                let adds = self.guard_home().is_none() && !old(tree)@[self.scope()].collected;
                &&& adds ==> r.guard_home() == Some(self.scope())
                &&& !adds ==> r.guard_home() == self.guard_home() && final(tree)@ == old(tree)@
                &&& final(tree)@.len() == old(tree)@.len()
                &&& forall|j: int| 0 <= j < old(tree)@.len() ==> #[trigger] final(tree)@[j] == (NodeView {
                    nonempty_kids: final(tree)@[j].nonempty_kids,
                    local_guards: old(tree)@[j].local_guards + (if adds && j == self.scope() { 1nat } else { 0nat }),
                    ..old(tree)@[j]
                })
                &&& forall|i: int| #[trigger] subtree_guards(final(tree)@, i) == subtree_guards(old(tree)@, i)
                    + (if adds { indicator(in_subtree(old(tree)@, self.scope(), i)) } else { 0 })
                &&& subtree_guards(final(tree)@, self.scope()) == subtree_guards(old(tree)@, self.scope())
                    + (if adds { 1int } else { 0int })
            }),
            final(tree).notices() == old(tree).notices(),
    {
        let Interrupt { node, wrapped_type, guard } = self;
        match guard {
            Some(g) => Interrupt { node, wrapped_type, guard: Some(g) },
            None => {
                if tree.is_alive(node) {
                    tree.increment_guard(node);
                    Interrupt { node, wrapped_type, guard: Some(Guard { home: node }) }
                } else {
                    Interrupt { node, wrapped_type, guard: None }
                }
            },
        }
    }

    /// Take the wrapped value out; a carried guard is given up.
    pub fn into_inner(self, tree: &mut ShutdownTree) -> (v: T)
        requires
            old(tree).wf(),
            self.guard_home() is Some ==> old(tree).valid(self.guard_home()->0)
                && old(tree)@[self.guard_home()->0].local_guards >= 1,
        ensures
            v == self.value(),
            final(tree).wf(),
            self.guard_home() is None ==> final(tree)@ == old(tree)@ && final(tree).notices() == old(tree).notices(),
            self.guard_home() is Some ==> {
                let h = self.guard_home()->0;
                &&& final(tree)@.len() == old(tree)@.len()
                &&& forall|j: int| 0 <= j < old(tree)@.len() ==> #[trigger] final(tree)@[j] == (NodeView {
                    nonempty_kids: final(tree)@[j].nonempty_kids,
                    collected: final(tree)@[j].collected,
                    live_kids: final(tree)@[j].live_kids,
                    local_guards: (old(tree)@[j].local_guards - (if j == h { 1int } else { 0int })) as nat,
                    ..old(tree)@[j]
                })
                &&& forall|j: int| 0 <= j < old(tree)@.len() && old(tree)@[j].collected ==> #[trigger] final(tree)@[j].collected
                &&& forall|j: int| 0 <= j < old(tree)@.len() && #[trigger] final(tree)@[j].collected != old(tree)@[j].collected
                    ==> in_subtree(old(tree)@, h, j)
                &&& forall|i: int| #[trigger] subtree_guards(final(tree)@, i) == subtree_guards(old(tree)@, i)
                    - indicator(in_subtree(old(tree)@, h, i))
                &&& final(tree).notices() == old(tree).notices() + release_notices(old(tree)@, h)
            },
    {
        let Interrupt { node, wrapped_type, guard } = self;
        match guard {
            Some(g) => {
                g.release(tree);
            },
            None => {},
        }
        wrapped_type
    }

    /// Take the carried guard out of this value, leaving it unguarded.
    pub fn take_guard(&mut self) -> (g: Option<Guard>)
        ensures
            final(self).guard_home().is_none(),
            final(self).scope() == old(self).scope(),
            final(self).value() == old(self).value(),
            match g {
                Some(g) => old(self).guard_home() == Some(g.home()),
                None => old(self).guard_home().is_none(),
            },
    {
        let g = self.guard.take();
        g
    }

    /// Whether this value has to stop: its scope is gone or stopped.
    pub fn is_stopped(&self, tree: &ShutdownTree) -> (r: bool)
        requires
            tree.wf(),
            tree.valid(self.scope()),
        ensures
            r == (tree@[self.scope()].collected || tree@[self.scope()].stopped),
    {
        !tree.is_alive(self.node) || tree.is_stopped(self.node)
    }

    /// Whether this value has to stop, as observed on the fast path; the same
    /// observation as [`Interrupt::is_stopped`] here.
    pub fn is_stopped_relaxed(&self, tree: &ShutdownTree) -> (r: bool)
        requires
            tree.wf(),
            tree.valid(self.scope()),
        ensures
            r == (tree@[self.scope()].collected || tree@[self.scope()].stopped),
    {
        self.is_stopped(tree)
    }
}

impl<T> Stop<T> {
    /// The scope whose stop this value reacts to.
    pub closed spec fn scope(&self) -> int {
        self.node as int
    }

    /// The wrapped value.
    pub closed spec fn value(&self) -> T {
        self.wrapped_type
    }

    /// Whether this value counts as a guard of its scope.
    pub closed spec fn is_guarded(&self) -> bool {
        self.guarded
    }

    /// Wrap a value so that it stops being driven once `scope` is stopped.
    pub fn new(scope: &Swansong, wrapped_type: T) -> (s: Stop<T>)
        ensures
            s.scope() == scope.scope(),
            s.value() == wrapped_type,
            !s.is_guarded(),
    {
        Stop { node: scope.node, wrapped_type, guarded: false }
    }

    /// Also delay shutdown until this value is released: if its scope is still
    /// alive and it does not count as a guard yet, it starts to count as one.
    pub fn guarded(self, tree: &mut ShutdownTree) -> (r: Stop<T>)
        requires
            old(tree).wf(),
            old(tree).valid(self.scope()),
            old(tree)@[self.scope()].local_guards < usize::MAX,
        ensures
            final(tree).wf(),
            r.scope() == self.scope(),
            r.value() == self.value(),
            ({
                let adds = !self.is_guarded() && !old(tree)@[self.scope()].collected;
                &&& r.is_guarded() == (self.is_guarded() || adds)
                &&& !adds ==> final(tree)@ == old(tree)@
                &&& final(tree)@.len() == old(tree)@.len()
                &&& forall|i: int| #[trigger] subtree_guards(final(tree)@, i) == subtree_guards(old(tree)@, i)
                    + (if adds { indicator(in_subtree(old(tree)@, self.scope(), i)) } else { 0 })
                &&& subtree_guards(final(tree)@, self.scope()) == subtree_guards(old(tree)@, self.scope())
                    + (if adds { 1int } else { 0int })
            }),
            final(tree).notices() == old(tree).notices(),
    {
        let Stop { node, wrapped_type, guarded } = self;
        if !guarded && tree.is_alive(node) {
            tree.increment_guard(node);
            Stop { node, wrapped_type, guarded: true }
        } else {
            Stop { node, wrapped_type, guarded }
        }
    }

    /// Whether this value has to stop: its scope is gone or stopped.
    pub fn is_stopped(&self, tree: &ShutdownTree) -> (r: bool)
        requires
            tree.wf(),
            tree.valid(self.scope()),
        ensures
            r == (tree@[self.scope()].collected || tree@[self.scope()].stopped),
    {
        !tree.is_alive(self.node) || tree.is_stopped(self.node)
    }

    /// Give this value up: if it counts as a guard, that guard is released.
    pub fn release(self, tree: &mut ShutdownTree)
        requires
            old(tree).wf(),
            old(tree).valid(self.scope()),
            self.is_guarded() ==> old(tree)@[self.scope()].local_guards >= 1,
        ensures
            final(tree).wf(),
            !self.is_guarded() ==> final(tree)@ == old(tree)@ && final(tree).notices() == old(tree).notices(),
            self.is_guarded() ==> {
                &&& final(tree)@.len() == old(tree)@.len()
                &&& forall|j: int| 0 <= j < old(tree)@.len() ==> #[trigger] final(tree)@[j] == (NodeView {
                    nonempty_kids: final(tree)@[j].nonempty_kids,
                    collected: final(tree)@[j].collected,
                    live_kids: final(tree)@[j].live_kids,
                    local_guards: (old(tree)@[j].local_guards - (if j == self.scope() { 1int } else { 0int })) as nat,
                    ..old(tree)@[j]
                })
                &&& forall|j: int| 0 <= j < old(tree)@.len() && old(tree)@[j].collected ==> #[trigger] final(tree)@[j].collected
                &&& forall|j: int| 0 <= j < old(tree)@.len() && #[trigger] final(tree)@[j].collected != old(tree)@[j].collected
                    ==> in_subtree(old(tree)@, self.scope(), j)
                &&& forall|i: int| #[trigger] subtree_guards(final(tree)@, i) == subtree_guards(old(tree)@, i)
                    - indicator(in_subtree(old(tree)@, self.scope(), i))
                &&& final(tree).notices() == old(tree).notices() + release_notices(old(tree)@, self.scope())
            },
    {
        if self.guarded {
            tree.drop_guard(self.node);
        }
    }
}

impl ShutdownCompletion {
    /// The arena index of the scope this refers to.
    pub fn index(&self) -> (i: usize)
        ensures
            i == self.scope(),
    {
        self.node
    }

    /// The scope this waiter waits on.
    pub closed spec fn scope(&self) -> int {
        self.node as int
    }

    /// The waiter is usable with `tree`: its scope exists and counts it.
    pub open spec fn pinned_in(&self, tree: &ShutdownTree) -> bool {
        &&& tree.wf()
        &&& tree.valid(self.scope())
        &&& tree@[self.scope()].pins >= 1
    }

    /// The waiter has seen shutdown of its scope complete. Once resolved it
    /// stays resolved, whatever guards are taken afterwards.
    pub closed spec fn is_resolved(&self) -> bool {
        self.resolved
    }

    /// Whether this waiter is resolved: it was resolved already, or shutdown of
    /// the scope is complete now (the scope is stopped and its subtree holds no
    /// guard), which resolves it for good.
    pub fn is_ready(&mut self, tree: &ShutdownTree) -> (r: bool)
        requires
            old(self).pinned_in(tree),
        ensures
            r == (old(self).is_resolved() || (tree@[old(self).scope()].stopped && subtree_guards(tree@, old(self).scope()) == 0)),
            final(self).is_resolved() == r,
            final(self).scope() == old(self).scope(),
    {
        if !self.resolved && tree.is_complete(self.node) {
            self.resolved = true;
        }
        self.resolved
    }

    /// Stop waiting: the scope is no longer kept alive by this waiter.
    pub fn release(self, tree: &mut ShutdownTree)
        requires
            self.pinned_in(old(tree)),
        ensures
            final(tree).wf(),
            final(tree)@.len() == old(tree)@.len(),
            forall|j: int| 0 <= j < old(tree)@.len() ==> #[trigger] final(tree)@[j] == (NodeView {
                collected: final(tree)@[j].collected,
                live_kids: final(tree)@[j].live_kids,
                pins: (old(tree)@[j].pins - (if j == self.scope() { 1int } else { 0int })) as nat,
                ..old(tree)@[j]
            }),
            forall|j: int| 0 <= j < old(tree)@.len() && #[trigger] final(tree)@[j].collected != old(tree)@[j].collected
                ==> in_subtree(old(tree)@, self.scope(), j) && !old(tree)@[j].collected,
            final(tree).notices() == old(tree).notices(),
    {
        tree.unpin(self.node);
    }
}

impl ShuttingDown {
    /// The arena index of the scope this refers to.
    pub fn index(&self) -> (i: usize)
        ensures
            i == self.scope(),
    {
        self.node
    }

    /// The scope this waiter waits on.
    pub closed spec fn scope(&self) -> int {
        self.node as int
    }

    /// The waiter is usable with `tree`: its scope exists and counts it.
    pub open spec fn pinned_in(&self, tree: &ShutdownTree) -> bool {
        &&& tree.wf()
        &&& tree.valid(self.scope())
        &&& tree@[self.scope()].pins >= 1
    }

    /// Whether shutdown of the scope has been initiated.
    pub fn is_ready(&self, tree: &ShutdownTree) -> (r: bool)
        requires
            self.pinned_in(tree),
        ensures
            r == tree@[self.scope()].stopped,
    {
        tree.is_stopped(self.node)
    }

    /// Stop waiting: the scope is no longer kept alive by this waiter.
    pub fn release(self, tree: &mut ShutdownTree)
        requires
            self.pinned_in(old(tree)),
        ensures
            final(tree).wf(),
            final(tree)@.len() == old(tree)@.len(),
            forall|j: int| 0 <= j < old(tree)@.len() ==> #[trigger] final(tree)@[j] == (NodeView {
                collected: final(tree)@[j].collected,
                live_kids: final(tree)@[j].live_kids,
                pins: (old(tree)@[j].pins - (if j == self.scope() { 1int } else { 0int })) as nat,
                ..old(tree)@[j]
            }),
            forall|j: int| 0 <= j < old(tree)@.len() && #[trigger] final(tree)@[j].collected != old(tree)@[j].collected
                ==> in_subtree(old(tree)@, self.scope(), j) && !old(tree)@[j].collected,
            final(tree).notices() == old(tree).notices(),
    {
        tree.unpin(self.node);
    }
}

} // verus!
