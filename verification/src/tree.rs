//! The shutdown tree: every scope of one family (a root and its transitive
//! children) with its stop latch, guard accounting, handle accounting and the
//! child lists that a stop propagates through.
use vstd::prelude::*;
use crate::counting::{indicator, sum_of, lemma_count_bound, lemma_sum_prefix};
use crate::model::{NodeView, tree_wf, fresh_node, lemma_push_frame, lemma_push_wf, with_child, child_node, pruned_children, parent_after_child, lemma_child_wf, live_child_pred, in_subtree, subtree_guards, observed_state, lemma_zero_iff, lemma_subtree_decompose, nonempty_child_pred, nonempty_children, lemma_ancestors_decrease, parent_is, lemma_subtree_order, lemma_subtree_transitive, lemma_path_child, stop_closed, live_consistent, live_children, unheld};
use crate::propagation::{shape_wf, closed_below, latches_only, subject, newly_stopped, owed_on_stop, covered, stop_owed_exactly, lemma_latches_frame, lemma_wf_split, implicit_stop};
use crate::accounting::{chain_at, ancestor_above, with_local, kids_bumped, walk_matches, locals_moved, lemma_chain, lemma_chain_monotone, lemma_kid_shift, lemma_guard_walk_wf, lemma_locals_moved, tree_wf_except, chain_seq, completes_on_release, release_notices, lemma_filter_prefix, holds_only, lemma_holds_frame, collect_one, lemma_collect_step};
use crate::state::ShutdownState;
use crate::wakeups::{stops_latched, wakeups_owed, lemma_quiet_change, lemma_stop_wakeups, lemma_release_wakeups};

verus! {

/// A wake-up that a change of the tree owes to waiters outside of it.
#[derive(Debug, Clone, Copy, PartialEq, Eq, Structural)]
pub enum Notice {
    /// The scope has just been stopped: wake whoever waits for the stop signal.
    Stop(usize),
    /// The scope is stopped and its subtree has just become empty: wake whoever
    /// waits for completion.
    Zero(usize),
}

/// A sequence of arena indices, as integers.
pub open spec fn as_ints(s: Seq<usize>) -> Seq<int> {
    s.map_values(|x: usize| x as int)
}

proof fn lemma_as_ints_push(s: Seq<usize>, x: usize)
    ensures
        as_ints(s.push(x)) == as_ints(s).push(x as int),
{
    assert(as_ints(s.push(x)) =~= as_ints(s).push(x as int));
}

/// The coordination state of one scope.
#[derive(Debug)]
struct Node {
    stopped: bool,
    local_guards: usize,
    nonempty_kids: usize,
    swansong_count: usize,
    pins: usize,
    live_kids: usize,
    collected: bool,
    ancestors: Vec<usize>,
    children: Vec<usize>,
}

impl View for Node {
    type V = NodeView;

    closed spec fn view(&self) -> NodeView {
        NodeView {
            stopped: self.stopped,
            local_guards: self.local_guards as nat,
            nonempty_kids: self.nonempty_kids as nat,
            handles: self.swansong_count as nat,
            pins: self.pins as nat,
            live_kids: self.live_kids as nat,
            collected: self.collected,
            ancestors: as_ints(self.ancestors@),
            children: as_ints(self.children@),
        }
    }
}

/// All scopes of one shutdown family, indexed by their position in an arena,
/// together with the wake-ups that its changes owe.
#[derive(Debug)]
pub struct ShutdownTree {
    nodes: Vec<Node>,
    notices: Vec<Notice>,
}

impl View for ShutdownTree {
    type V = Seq<NodeView>;

    closed spec fn view(&self) -> Seq<NodeView> {
        self.nodes@.map_values(|n: Node| n@)
    }
}

impl ShutdownTree {
    /// The wake-ups owed and not yet taken, oldest first.
    pub closed spec fn notices(&self) -> Seq<Notice> {
        self.notices@
    }

    /// The tree is well formed.
    pub open spec fn wf(&self) -> bool {
        tree_wf(self@)
    }

    /// `node` names a scope of this tree.
    pub open spec fn valid(&self, node: int) -> bool {
        0 <= node < self@.len()
    }

    proof fn lemma_view(&self)
        ensures
            self@.len() == self.nodes@.len(),
            forall|i: int| 0 <= i < self.nodes@.len() ==> #[trigger] self@[i] == self.nodes@[i]@,
    {
    }

    /// An empty tree, with no scope and no owed wake-up.
    pub fn new() -> (t: ShutdownTree)
        ensures
            t.wf(),
            t@.len() == 0,
            t.notices().len() == 0,
    {
        let t = ShutdownTree { nodes: Vec::new(), notices: Vec::new() };
        proof {
            t.lemma_view();
        }
        t
    }

    /// The number of scopes ever created in this tree.
    pub fn len(&self) -> (n: usize)
        ensures
            n == self@.len(),
    {
        proof {
            self.lemma_view();
        }
        self.nodes.len()
    }


    /// Create a root scope: running, with one handle, no parent.
    pub fn new_root(&mut self) -> (id: usize)
        requires
            old(self).wf(),
            old(self)@.len() < usize::MAX,
        ensures
            final(self).wf(),
            id == old(self)@.len(),
            final(self)@ == old(self)@.push(fresh_node(false, Seq::empty())),
            final(self).notices() == old(self).notices(),
            stops_latched(old(self)@, final(self)@),
            wakeups_owed(old(self)@, final(self)@, final(self).notices().skip(old(self).notices().len() as int)),
    {
        let id = self.nodes.len();
        let node = Node {
            stopped: false,
            local_guards: 0,
            nonempty_kids: 0,
            swansong_count: 1,
            pins: 0,
            live_kids: 0,
            collected: false,
            ancestors: Vec::new(),
            children: Vec::new(),
        };
        proof {
            old(self).lemma_view();
            assert(node@.ancestors =~= Seq::<int>::empty());
            assert(node@.children =~= Seq::<int>::empty());
        }
        self.nodes.push(node);
        proof {
            let old_nodes = old(self)@;
            let v = fresh_node(false, Seq::empty());
            assert(self@ =~= old_nodes.push(v));
            lemma_push_frame(old_nodes, v);
            lemma_push_wf(old_nodes, v);
        }
        proof {
            self.lemma_view();
            lemma_quiet_change(old(self)@, self@, self.notices().skip(old(self).notices().len() as int));
        }
        id
    }


    /// Create a child scope of the live scope `parent`: it has one handle, no
    /// guard, `parent` and the ancestors of `parent` as its ancestors, and is
    /// born stopped exactly when `parent` is stopped. The parent forgets the
    /// collected children it listed and lists the new one.
    pub fn new_child(&mut self, parent: usize) -> (id: usize)
        requires
            old(self).wf(),
            old(self).valid(parent as int),
            !old(self)@[parent as int].collected,
            old(self)@.len() < usize::MAX,
        ensures
            final(self).wf(),
            id == old(self)@.len(),
            final(self)@ == with_child(old(self)@, parent as int),
            final(self).notices() == old(self).notices(),
            stops_latched(old(self)@, final(self)@),
            wakeups_owed(old(self)@, final(self)@, final(self).notices().skip(old(self).notices().len() as int)),
    {
        proof {
            self.lemma_view();
            lemma_count_bound(live_child_pred(self@, parent as int), self@.len() as int);
        }
        let id = self.nodes.len();
        let ghost pa = self@[parent as int].ancestors;
        let mut ancestors: Vec<usize> = Vec::new();
        ancestors.push(parent);
        let plen = self.nodes[parent].ancestors.len();
        let mut k: usize = 0;
        while k < plen
            invariant
                self == old(self),
                self.wf(),
                (parent as int) < self@.len(),
                self@.len() == self.nodes@.len(),
                forall|i: int| 0 <= i < self.nodes@.len() ==> #[trigger] self@[i] == self.nodes@[i]@,
                pa == as_ints(self.nodes@[parent as int].ancestors@),
                plen == pa.len(),
                k <= plen,
                as_ints(ancestors@) =~= seq![parent as int] + pa.take(k as int),
            decreases plen - k,
        {
            let a = self.nodes[parent].ancestors[k];
            proof {
                assert(pa[k as int] == a as int);
            }
            let ghost before = ancestors@;
            ancestors.push(a);
            k = k + 1;
            proof {
                lemma_as_ints_push(before, a);
                assert(pa.take(k as int) =~= pa.take(k - 1).push(a as int));
                assert(as_ints(ancestors@) =~= seq![parent as int] + pa.take(k as int));
            }
        }
        proof {
            assert(pa.take(plen as int) =~= pa);
        }
        let ghost pc = self@[parent as int].children;
        let ghost keep = |c: int| !self@[c].collected;
        let mut kept: Vec<usize> = Vec::new();
        let clen = self.nodes[parent].children.len();
        let mut t: usize = 0;
        while t < clen
            invariant
                self == old(self),
                self.wf(),
                (parent as int) < self@.len(),
                self@.len() == self.nodes@.len(),
                forall|i: int| 0 <= i < self.nodes@.len() ==> #[trigger] self@[i] == self.nodes@[i]@,
                pc == as_ints(self.nodes@[parent as int].children@),
                keep == (|c: int| !self@[c].collected),
                clen == pc.len(),
                t <= clen,
                as_ints(kept@) =~= pc.take(t as int).filter(keep),
            decreases clen - t,
        {
            let c = self.nodes[parent].children[t];
            proof {
                assert(pc[t as int] == c as int);
                assert(self@[parent as int] == self.nodes@[parent as int]@);
                assert(self@[parent as int].children[t as int] == c as int);
                assert(c < self@.len());
                assert(pc.take(t as int + 1) =~= pc.take(t as int).push(c as int));
                pc.take(t as int).lemma_filter_push(c as int, keep);
            }
            if !self.nodes[c].collected {
                proof {
                    lemma_as_ints_push(kept@, c);
                }
                kept.push(c);
            }
            t = t + 1;
            proof {
                assert(as_ints(kept@) =~= pc.take(t as int).filter(keep));
            }
        }
        proof {
            assert(pc.take(clen as int) =~= pc);
        }
        proof {
            lemma_as_ints_push(kept@, id);
        }
        kept.push(id);
        proof {
            assert(as_ints(kept@) =~= pruned_children(old(self)@, parent as int, id as int));
        }
        let stopped = self.nodes[parent].stopped;
        let live = self.nodes[parent].live_kids;
        self.nodes[parent].children = kept;
        self.nodes[parent].live_kids = live + 1;
        let node = Node {
            stopped,
            local_guards: 0,
            nonempty_kids: 0,
            swansong_count: 1,
            pins: 0,
            live_kids: 0,
            collected: false,
            ancestors,
            children: Vec::new(),
        };
        self.nodes.push(node);
        proof {
            let o = old(self)@;
            let p = parent as int;
            assert(node@.children =~= Seq::<int>::empty());
            assert(node@ == child_node(o, p));
            assert(self.nodes@[p]@ == parent_after_child(o, p));
            assert(self@ =~= with_child(o, p));
            lemma_child_wf(o, p);
        }
        proof {
            crate::laws::law_child_creation_transparent(old(self)@, parent as int);
            lemma_quiet_change(old(self)@, self@, self.notices().skip(old(self).notices().len() as int));
        }
        id
    }


    /// Whether `node` has been stopped.
    pub fn is_stopped(&self, node: usize) -> (r: bool)
        requires
            self.wf(),
            self.valid(node as int),
        ensures
            r == self@[node as int].stopped,
    {
        proof {
            self.lemma_view();
        }
        self.nodes[node].stopped
    }

    /// The number of guards whose home is `node`.
    pub fn local_guard_count(&self, node: usize) -> (n: usize)
        requires
            self.valid(node as int),
        ensures
            n == self@[node as int].local_guards,
    {
        proof {
            self.lemma_view();
        }
        self.nodes[node].local_guards
    }

    /// The number of handles naming `node`.
    pub fn handle_count(&self, node: usize) -> (n: usize)
        requires
            self.valid(node as int),
        ensures
            n == self@[node as int].handles,
    {
        proof {
            self.lemma_view();
        }
        self.nodes[node].swansong_count
    }

    /// The number of waiters keeping `node` alive.
    pub fn pin_count(&self, node: usize) -> (n: usize)
        requires
            self.valid(node as int),
        ensures
            n == self@[node as int].pins,
    {
        proof {
            self.lemma_view();
        }
        self.nodes[node].pins
    }

    /// Whether the subtree of `node` holds no guard.
    pub fn is_zero(&self, node: usize) -> (r: bool)
        requires
            self.wf(),
            self.valid(node as int),
        ensures
            r == (subtree_guards(self@, node as int) == 0),
    {
        proof {
            self.lemma_view();
            lemma_zero_iff(self@, node as int);
        }
        self.nodes[node].local_guards == 0 && self.nodes[node].nonempty_kids == 0
    }

    /// Whether `node` is stopped and its subtree holds no guard.
    pub fn is_complete(&self, node: usize) -> (r: bool)
        requires
            self.wf(),
            self.valid(node as int),
        ensures
            r == (self@[node as int].stopped && subtree_guards(self@, node as int) == 0),
    {
        self.is_stopped(node) && self.is_zero(node)
    }

    /// Whether `node` has no parent.
    pub fn is_root(&self, node: usize) -> (r: bool)
        requires
            self.wf(),
            self.valid(node as int),
        ensures
            r == (self@[node as int].ancestors.len() == 0),
    {
        proof {
            self.lemma_view();
        }
        self.nodes[node].ancestors.len() == 0
    }

    /// Whether something still keeps `node` alive, so that a weak reference to
    /// it still upgrades.
    pub fn is_alive(&self, node: usize) -> (r: bool)
        requires
            self.wf(),
            self.valid(node as int),
        ensures
            r == !self@[node as int].collected,
    {
        proof {
            self.lemma_view();
        }
        !self.nodes[node].collected
    }

    /// The scopes of the subtree of `node` (`node` itself included), in
    /// arena order.
    pub fn subtree_members(&self, node: usize) -> (v: Vec<usize>)
        requires
            self.wf(),
            self.valid(node as int),
        ensures
            forall|j: int| #[trigger] v@.contains(j as usize) && 0 <= j <= usize::MAX
                <==> 0 <= j < self@.len() && in_subtree(self@, j, node as int),
            forall|a: int, b: int| 0 <= a < b < v@.len() ==> v@[a] < v@[b],
    {
        proof {
            self.lemma_view();
        }
        let mut v: Vec<usize> = Vec::new();
        let n = self.nodes.len();
        let mut j: usize = 0;
        while j < n
            invariant
                self.wf(),
                self.valid(node as int),
                n == self@.len(),
                j <= n,
                forall|k: int| 0 <= k < v@.len() ==> #[trigger] v@[k] < j,
                forall|k: int| #[trigger] v@.contains(k as usize) && 0 <= k <= usize::MAX
                    <==> 0 <= k < j && in_subtree(self@, k, node as int),
                forall|a: int, b: int| 0 <= a < b < v@.len() ==> v@[a] < v@[b],
            decreases n - j,
        {
            if self.in_subtree(j, node) {
                let ghost before = v@;
                v.push(j);
                proof {
                    assert forall|k: int| #[trigger] v@.contains(k as usize) && 0 <= k <= usize::MAX
                        <==> 0 <= k < j + 1 && in_subtree(self@, k, node as int) by {
                        if 0 <= k <= usize::MAX && v@.contains(k as usize) {
                            let t = choose|t: int| 0 <= t < v@.len() && v@[t] == k as usize;
                            if t < before.len() {
                                assert(before.contains(k as usize));
                            }
                        }
                        if 0 <= k < j && in_subtree(self@, k, node as int) {
                            assert(before.contains(k as usize));
                            let t = choose|t: int| 0 <= t < before.len() && before[t] == k as usize;
                            assert(v@[t] == k as usize);
                        }
                        if k == j {
                            assert(v@[before.len() as int] == j);
                        }
                    }
                }
            } else {
                proof {
                    assert forall|k: int| #[trigger] v@.contains(k as usize) && 0 <= k <= usize::MAX
                        <==> 0 <= k < j + 1 && in_subtree(self@, k, node as int) by {
                        if 0 <= k <= usize::MAX && v@.contains(k as usize) {
                            let t = choose|t: int| 0 <= t < v@.len() && v@[t] == k as usize;
                            assert(v@[t] < j);
                        }
                    }
                }
            }
            j = j + 1;
        }
        v
    }

    /// Whether `j` lies in the subtree of `i`.
    pub fn in_subtree(&self, j: usize, i: usize) -> (r: bool)
        requires
            self.wf(),
            self.valid(j as int),
            self.valid(i as int),
        ensures
            r == in_subtree(self@, j as int, i as int),
    {
        proof {
            self.lemma_view();
        }
        if j == i {
            return true;
        }
        let ghost anc = self@[j as int].ancestors;
        let n = self.nodes[j].ancestors.len();
        let mut k: usize = 0;
        while k < n
            invariant
                self.wf(),
                (j as int) < self@.len(),
                anc == as_ints(self.nodes@[j as int].ancestors@),
                n == anc.len(),
                k <= n,
                forall|x: int| 0 <= x < k ==> anc[x] != i as int,
            decreases n - k,
        {
            if self.nodes[j].ancestors[k] == i {
                proof {
                    assert(anc[k as int] == i as int);
                }
                return true;
            }
            k = k + 1;
        }
        false
    }

    /// The state `node` reports: running while not stopped, complete once
    /// stopped with no guard left in its subtree, shutting down in between.
    pub fn state(&self, node: usize) -> (s: ShutdownState)
        requires
            self.wf(),
            self.valid(node as int),
        ensures
            s == observed_state(self@, node as int),
    {
        let stopped = self.is_stopped(node);
        let zero = self.is_zero(node);
        ShutdownState::from_observation(stopped, zero)
    }

    /// The number of guards anywhere in the subtree of `node`: its own, plus
    /// those counted in the subtree of each live child it lists.
    pub fn guard_count_subtree(&self, node: usize) -> (count: usize)
        requires
            self.wf(),
            self.valid(node as int),
            subtree_guards(self@, node as int) <= usize::MAX,
        ensures
            count == subtree_guards(self@, node as int),
        decreases usize::MAX - node,
    {
        proof {
            self.lemma_view();
            lemma_subtree_decompose(self@, node as int);
            assert(self@[node as int] == self.nodes@[node as int]@);
        }
        let ghost x = node as int;
        let ghost l = self@[x].children;
        let ghost sg = |t: int| subtree_guards(self@, l[t]);
        let mut total = self.nodes[node].local_guards;
        let n_children = self.nodes[node].children.len();
        let mut t: usize = 0;
        while t < n_children
            invariant
                self.wf(),
                0 <= x < self@.len(),
                x == node as int,
                self@.len() == self.nodes@.len(),
                forall|i: int| 0 <= i < self.nodes@.len() ==> #[trigger] self@[i] == self.nodes@[i]@,
                l == self@[x].children,
                sg == (|t: int| subtree_guards(self@, l[t])),
                n_children == l.len(),
                t <= n_children,
                subtree_guards(self@, x) == self@[x].local_guards + sum_of(sg, n_children as int),
                subtree_guards(self@, x) <= usize::MAX,
                total == self@[x].local_guards + sum_of(sg, t as int),
            decreases n_children - t,
        {
            let c = self.nodes[node].children[t];
            proof {
                assert(l[t as int] == c as int);
                assert(x < c < self@.len());
                assert(self.nodes@[c as int]@ == self@[c as int]);
                lemma_sum_prefix(sg, t + 1, n_children as int);
            }
            if !self.nodes[c].collected {
                let sub = self.guard_count_subtree(c);
                total = total + sub;
            } else {
                proof {
                    crate::model::lemma_collected_empty(self@, c as int);
                }
            }
            t = t + 1;
        }
        total
    }

    /// Register one more guard whose home is the live scope `node`: its own
    /// count rises by one, and every ancestor whose chain child thereby stops
    /// being empty counts one more nonempty child (the walk stops at the first
    /// ancestor that was nonempty already).
    pub fn increment_guard(&mut self, node: usize)
        requires
            old(self).wf(),
            old(self).valid(node as int),
            !old(self)@[node as int].collected,
            old(self)@[node as int].local_guards < usize::MAX,
        ensures
            final(self).wf(),
            final(self)@.len() == old(self)@.len(),
            forall|j: int| 0 <= j < old(self)@.len() ==> #[trigger] final(self)@[j] == (NodeView {
                nonempty_kids: final(self)@[j].nonempty_kids,
                local_guards: old(self)@[j].local_guards + (if j == node { 1nat } else { 0nat }),
                ..old(self)@[j]
            }),
            forall|i: int| #[trigger] subtree_guards(final(self)@, i) == subtree_guards(old(self)@, i)
                + indicator(in_subtree(old(self)@, node as int, i)),
            final(self).notices() == old(self).notices(),
            stops_latched(old(self)@, final(self)@),
            wakeups_owed(old(self)@, final(self)@, final(self).notices().skip(old(self).notices().len() as int)),
    {
        proof {
            self.lemma_view();
        }
        let ghost a = self@;
        let ghost x = node as int;
        let ghost anc = a[x].ancestors;
        let ghost b = with_local(a, x, 1);
        let local = self.nodes[node].local_guards;
        let prev_zero = local == 0 && self.nodes[node].nonempty_kids == 0;
        proof {
            lemma_zero_iff(a, x);
            lemma_chain(a, x, 0);
        }
        self.nodes[node].local_guards = local + 1;
        let ghost mut u: int = 0;
        proof {
            assert(self@ =~= kids_bumped(b, x, 0, 1));
            assert(locals_moved(a, b, x, 1));
            lemma_kid_shift(a, b, x, 1);
        }
        let total = self.nodes.len();
        if prev_zero {
            let n_anc = self.nodes[node].ancestors.len();
            let mut k: usize = 0;
            while k < n_anc
                invariant_except_break
                    forall|t: int| 0 <= t <= k ==> #[trigger] subtree_guards(a, chain_at(a, x, t)) == 0,
                    u == k,
                invariant
                    tree_wf(a),
                    0 <= x < a.len(),
                    a.len() == total,
                    x == node as int,
                    anc == a[x].ancestors,
                    n_anc == self.nodes@[x].ancestors@.len(),
                    b == with_local(a, x, 1),
                    n_anc == anc.len(),
                    0 <= u <= n_anc,
                    k <= n_anc,
                    self.nodes@.len() == a.len(),
                    self@ == kids_bumped(b, x, u, 1),
                    forall|i: int| 0 <= i < self.nodes@.len() ==> #[trigger] self@[i] == self.nodes@[i]@,
                    forall|i: int| #[trigger] nonempty_children(b, i) == nonempty_children(a, i) + indicator(ancestor_above(a, x, i, 0)),
                    self.notices@ == old(self).notices@,
                    forall|t: int| 0 <= t < u ==> #[trigger] subtree_guards(a, chain_at(a, x, t)) == 0,
                ensures
                    walk_matches(a, x, u, 0),
                    self@ == kids_bumped(b, x, u, 1),
                decreases n_anc - k,
            {
                let p = self.nodes[node].ancestors[k];
                proof {
                    assert(self@[x] == self.nodes@[x]@);
                    assert(self@[x].ancestors == anc);
                    assert(anc[k as int] == p as int);
                    lemma_chain(a, x, k as int);
                    lemma_chain(a, x, k as int + 1);
                    assert(chain_at(a, x, k as int + 1) == p as int);
                    assert(self@[p as int] == b[p as int]) by {
                        if anc.take(k as int).contains(p as int) {
                            let t = choose|t: int| 0 <= t < k && anc.take(k as int)[t] == p as int;
                            lemma_ancestors_decrease(a, x, t, k as int);
                        }
                    }
                    lemma_zero_iff(a, p as int);
                    assert(subtree_guards(a, chain_at(a, x, k as int)) == 0);
                    assert(ancestor_above(a, x, p as int, 0));
                    lemma_count_bound(nonempty_child_pred(b, p as int), b.len() as int);
                    assert(p as int != x);
                    assert(b[p as int] == a[p as int]);
                    assert(a[p as int].nonempty_kids == nonempty_children(a, p as int));
                    assert(self.nodes@[p as int]@ == self@[p as int]);
                }
                let ghost before = self@;
                let was_zero = self.nodes[p].local_guards == 0 && self.nodes[p].nonempty_kids == 0;
                let kids = self.nodes[p].nonempty_kids;
                proof {
                    assert(kids as nat == a[p as int].nonempty_kids);
                    assert(nonempty_children(b, p as int) == nonempty_children(a, p as int) + 1);
                    assert(nonempty_children(b, p as int) <= total);
                }
                self.nodes[p].nonempty_kids = kids + 1;
                proof {
                    assert(self@ =~= before.update(p as int, NodeView { nonempty_kids: (before[p as int].nonempty_kids + 1) as nat, ..before[p as int] }));
                    u = u + 1;
                    assert(anc.take(u) =~= anc.take(u - 1).push(p as int));
                    assert(b[x].ancestors == anc);
                    let kb = kids_bumped(b, x, u, 1);
                    let kb0 = kids_bumped(b, x, u - 1, 1);
                    assert(before == kb0);
                    assert forall|j: int| 0 <= j < b.len() implies #[trigger] self@[j] == kb[j] by {
                        if j == p as int {
                            assert(!anc.take(u - 1).contains(j));
                            assert(anc.take(u)[u - 1] == j);
                            assert(anc.take(u).contains(j));
                        } else {
                            if anc.take(u - 1).contains(j) {
                                let t = choose|t: int| 0 <= t < u - 1 && #[trigger] anc.take(u - 1)[t] == j;
                                assert(anc.take(u)[t] == j);
                            }
                            if anc.take(u).contains(j) {
                                let t = choose|t: int| 0 <= t < u && #[trigger] anc.take(u)[t] == j;
                                assert(anc.take(u - 1)[t] == j);
                            }
                        }
                    }
                    assert(self@ =~= kids_bumped(b, x, u, 1));
                }
                if !was_zero {
                    proof {
                        assert forall|t: int| 0 <= t < anc.len() implies (t < u <==> #[trigger] subtree_guards(a, chain_at(a, x, t)) == 0) by {
                            if t >= u {
                                lemma_chain_monotone(a, x, u, t);
                            }
                        }
                    }
                    break;
                }
                k = k + 1;
            }
        } else {
            proof {
                assert forall|t: int| 0 <= t < anc.len() implies (t < u <==> #[trigger] subtree_guards(a, chain_at(a, x, t)) == 0) by {
                    lemma_chain_monotone(a, x, 0, t);
                }
            }
        }
        proof {
            lemma_guard_walk_wf(a, x, 1, u);
            lemma_locals_moved(a, b, x, 1);
            crate::model::lemma_guard_frame(b, self@);
            assert forall|j: int| 0 <= j < a.len() implies #[trigger] self@[j] == (NodeView {
                nonempty_kids: self@[j].nonempty_kids,
                local_guards: a[j].local_guards + (if j == x { 1nat } else { 0nat }),
                ..a[j]
            }) by {}
        }
        proof {
            self.lemma_view();
            old(self).lemma_view();
            lemma_quiet_change(old(self)@, self@, self.notices().skip(old(self).notices().len() as int));
        }
    }


    /// Unregister one guard whose home is `node`: its own count drops by one,
    /// every ancestor whose chain child thereby becomes empty counts one
    /// nonempty child less (the walk stops at the first ancestor that stays
    /// nonempty), and a completion wake-up is owed to each stopped scope whose
    /// subtree has just become empty. The scope may be left unheld; collecting
    /// it is the caller's part.
    fn decrement_guard(&mut self, node: usize)
        requires
            old(self).wf(),
            old(self).valid(node as int),
            old(self)@[node as int].local_guards >= 1,
        ensures
            tree_wf_except(final(self)@, node as int),
            final(self)@.len() == old(self)@.len(),
            forall|j: int| 0 <= j < old(self)@.len() ==> #[trigger] final(self)@[j] == (NodeView {
                nonempty_kids: final(self)@[j].nonempty_kids,
                local_guards: (old(self)@[j].local_guards - (if j == node { 1int } else { 0int })) as nat,
                ..old(self)@[j]
            }),
            final(self).notices() == old(self).notices() + release_notices(old(self)@, node as int),
    {
        proof {
            self.lemma_view();
        }
        let ghost a = self@;
        let ghost x = node as int;
        let ghost anc = a[x].ancestors;
        let ghost b = with_local(a, x, -1);
        let ghost cs = chain_seq(a, x);
        let ghost pred = completes_on_release(a);
        let total = self.nodes.len();
        let local = self.nodes[node].local_guards;
        self.nodes[node].local_guards = local - 1;
        proof {
            assert(self@ =~= kids_bumped(b, x, 0, -1));
            assert(locals_moved(a, b, x, -1));
            lemma_kid_shift(a, b, x, -1);
            lemma_locals_moved(a, b, x, -1);
            lemma_chain(a, x, 0);
            assert(!ancestor_above(a, x, x, 1)) by {
                if ancestor_above(a, x, x, 1) {
                    let t = choose|t: int| 0 <= t < anc.len() && anc[t] == x
                        && #[trigger] subtree_guards(a, chain_at(a, x, t)) == 1;
                    assert(anc[t] < x);
                }
            }
            assert(nonempty_children(b, x) == nonempty_children(a, x));
            assert(a[x].nonempty_kids == nonempty_children(a, x));
            lemma_zero_iff(b, x);
            crate::model::lemma_local_le_subtree(a, x);
            assert(cs[0] == x);
        }
        let now_zero = local - 1 == 0 && self.nodes[node].nonempty_kids == 0;
        let ghost mut u: int = 0;
        if now_zero {
            if self.nodes[node].stopped {
                self.notices.push(Notice::Zero(node));
            }
            proof {
                assert(cs.take(1) =~= Seq::<int>::empty().push(x));
                Seq::<int>::empty().lemma_filter_push(x, pred);
                assert(Seq::<int>::empty().filter(pred) =~= Seq::<int>::empty()) by {
                    reveal(Seq::filter);
                }
                assert(self.notices@ =~= old(self).notices@ + cs.take(1).filter(pred).map_values(|i: int| Notice::Zero(i as usize)));
            }
            let n_anc = self.nodes[node].ancestors.len();
            proof {
                assert(self@[x] == self.nodes@[x]@);
                assert(cs.take(n_anc + 1) =~= cs);
            }
            let mut k: usize = 0;
            while k < n_anc
                invariant_except_break
                    forall|t: int| 0 <= t <= k ==> #[trigger] subtree_guards(a, chain_at(a, x, t)) == 1,
                    u == k,
                    self.notices@ == old(self).notices@ + cs.take(k + 1).filter(pred).map_values(|i: int| Notice::Zero(i as usize)),
                invariant
                    tree_wf(a),
                    0 <= x < a.len(),
                    a.len() == total,
                    x == node as int,
                    anc == a[x].ancestors,
                    n_anc == self.nodes@[x].ancestors@.len(),
                    b == with_local(a, x, -1),
                    cs == chain_seq(a, x),
                    cs.take(n_anc + 1) == cs,
                    pred == completes_on_release(a),
                    n_anc == anc.len(),
                    0 <= u <= n_anc,
                    k <= n_anc,
                    self.nodes@.len() == a.len(),
                    self@ == kids_bumped(b, x, u, -1),
                    forall|i: int| 0 <= i < self.nodes@.len() ==> #[trigger] self@[i] == self.nodes@[i]@,
                    forall|i: int| #[trigger] nonempty_children(b, i) == nonempty_children(a, i) - indicator(ancestor_above(a, x, i, 1)),
                    forall|i: int| #[trigger] subtree_guards(b, i) == subtree_guards(a, i) + -1 * indicator(in_subtree(a, x, i)),
                    forall|t: int| 0 <= t < u ==> #[trigger] subtree_guards(a, chain_at(a, x, t)) == 1,
                ensures
                    walk_matches(a, x, u, 1),
                    self@ == kids_bumped(b, x, u, -1),
                    self.notices@ == old(self).notices@ + cs.filter(pred).map_values(|i: int| Notice::Zero(i as usize)),
                decreases n_anc - k,
            {
                let p = self.nodes[node].ancestors[k];
                proof {
                    assert(self@[x] == self.nodes@[x]@);
                    assert(self@[x].ancestors == anc);
                    assert(anc[k as int] == p as int);
                    lemma_chain(a, x, k as int);
                    lemma_chain(a, x, k as int + 1);
                    assert(chain_at(a, x, k as int + 1) == p as int);
                    assert(self@[p as int] == b[p as int]) by {
                        if anc.take(k as int).contains(p as int) {
                            let t = choose|t: int| 0 <= t < k && #[trigger] anc.take(k as int)[t] == p as int;
                            lemma_ancestors_decrease(a, x, t, k as int);
                        }
                    }
                    assert(subtree_guards(a, chain_at(a, x, k as int)) == 1);
                    assert(ancestor_above(a, x, p as int, 1));
                    assert(p as int != x);
                    assert(b[p as int] == a[p as int]);
                    assert(a[p as int].nonempty_kids == nonempty_children(a, p as int));
                    assert(self.nodes@[p as int]@ == self@[p as int]);
                    lemma_zero_iff(b, p as int);
                    crate::model::lemma_ancestor_in_subtree(a, x, k as int);
                }
                let ghost before = self@;
                let kids = self.nodes[p].nonempty_kids;
                proof {
                    assert(kids as nat == a[p as int].nonempty_kids);
                    assert(nonempty_children(b, p as int) == nonempty_children(a, p as int) - 1);
                }
                self.nodes[p].nonempty_kids = kids - 1;
                let p_zero = self.nodes[p].local_guards == 0 && kids - 1 == 0;
                proof {
                    assert(self@ =~= before.update(p as int, NodeView { nonempty_kids: (before[p as int].nonempty_kids - 1) as nat, ..before[p as int] }));
                    u = u + 1;
                    assert(anc.take(u) =~= anc.take(u - 1).push(p as int));
                    assert(b[x].ancestors == anc);
                    let kb = kids_bumped(b, x, u, -1);
                    assert forall|j: int| 0 <= j < b.len() implies #[trigger] self@[j] == kb[j] by {
                        if j == p as int {
                            assert(!anc.take(u - 1).contains(j));
                            assert(anc.take(u)[u - 1] == j);
                            assert(anc.take(u).contains(j));
                        } else {
                            if anc.take(u - 1).contains(j) {
                                let t = choose|t: int| 0 <= t < u - 1 && #[trigger] anc.take(u - 1)[t] == j;
                                assert(anc.take(u)[t] == j);
                            }
                            if anc.take(u).contains(j) {
                                let t = choose|t: int| 0 <= t < u && #[trigger] anc.take(u)[t] == j;
                                assert(anc.take(u - 1)[t] == j);
                            }
                        }
                    }
                    assert(self@ =~= kb);
                    assert(p_zero == (subtree_guards(a, p as int) == 1));
                    assert(cs[k as int + 1] == p as int);
                    assert(cs.take(k as int + 2) =~= cs.take(k as int + 1).push(p as int));
                    cs.take(k as int + 1).lemma_filter_push(p as int, pred);
                }
                if !p_zero {
                    proof {
                        assert forall|t: int| 0 <= t < anc.len() implies (t < u <==> #[trigger] subtree_guards(a, chain_at(a, x, t)) == 1) by {
                            if t >= u {
                                lemma_chain_monotone(a, x, u, t);
                            }
                        }
                        assert forall|i: int| k + 1 <= i < cs.len() implies !pred(#[trigger] cs[i]) by {
                            lemma_chain_monotone(a, x, k + 1, i);
                        }
                        lemma_filter_prefix(cs, pred, k + 1);
                        assert(cs.take(k as int + 2).filter(pred) == cs.take(k as int + 1).filter(pred));
                    }
                    break;
                }
                if self.nodes[p].stopped {
                    self.notices.push(Notice::Zero(p));
                }
                k = k + 1;
                proof {
                    assert(self.notices@ =~= old(self).notices@ + cs.take(k + 1).filter(pred).map_values(|i: int| Notice::Zero(i as usize)));
                }
            }
            proof {
                if k == n_anc && u == k {
                    assert(cs.take(k + 1) =~= cs);
                }
            }
        } else {
            proof {
                assert forall|t: int| 0 <= t < anc.len() implies (t < u <==> #[trigger] subtree_guards(a, chain_at(a, x, t)) == 1) by {
                    lemma_chain_monotone(a, x, 0, t);
                }
                assert forall|i: int| 0 <= i < cs.len() implies !pred(#[trigger] cs[i]) by {
                    lemma_chain_monotone(a, x, 0, i);
                }
                lemma_filter_prefix(cs, pred, 0);
                assert(cs.take(0) =~= Seq::<int>::empty());
                assert(Seq::<int>::empty().filter(pred) =~= Seq::<int>::empty()) by {
                    reveal(Seq::filter);
                }
                assert(self.notices@ =~= old(self).notices@ + cs.filter(pred).map_values(|i: int| Notice::Zero(i as usize)));
            }
        }
        proof {
            lemma_guard_walk_wf(a, x, -1, u);
            assert forall|j: int| 0 <= j < a.len() implies #[trigger] self@[j] == (NodeView {
                nonempty_kids: self@[j].nonempty_kids,
                local_guards: (a[j].local_guards - (if j == x { 1int } else { 0int })) as nat,
                ..a[j]
            }) by {}
        }
    }


    /// Collect `node` if nothing holds it any more, and then each ancestor in
    /// turn that its collection leaves unheld.
    fn settle(&mut self, node: usize)
        requires
            tree_wf_except(old(self)@, node as int),
            old(self).valid(node as int),
        ensures
            final(self).wf(),
            final(self)@.len() == old(self)@.len(),
            forall|j: int| 0 <= j < old(self)@.len() ==> #[trigger] final(self)@[j] == (NodeView {
                collected: final(self)@[j].collected,
                live_kids: final(self)@[j].live_kids,
                ..old(self)@[j]
            }),
            forall|j: int| 0 <= j < old(self)@.len() && old(self)@[j].collected ==> #[trigger] final(self)@[j].collected,
            forall|j: int| 0 <= j < old(self)@.len() && #[trigger] final(self)@[j].collected != old(self)@[j].collected
                ==> in_subtree(old(self)@, node as int, j),
            final(self).notices() == old(self).notices(),
        decreases node,
    {
        proof {
            self.lemma_view();
        }
        let ghost a = self@;
        let ghost x = node as int;
        let n = &self.nodes[node];
        let unheld_now = n.swansong_count == 0 && n.local_guards == 0 && n.pins == 0 && n.live_kids == 0;
        if n.collected || !unheld_now {
            proof {
                assert(tree_wf(a)) by {
                    assert(live_consistent(a)) by {
                        assert forall|i: int| #![trigger a[i]] 0 <= i < a.len() implies {
                            &&& a[i].live_kids == live_children(a, i)
                            &&& a[i].collected <==> unheld(a[i])
                        } by {}
                    }
                }
            }
            return;
        }
        proof {
            lemma_collect_step(a, x);
        }
        self.nodes[node].collected = true;
        let has_parent = self.nodes[node].ancestors.len() > 0;
        if has_parent {
            let p = self.nodes[node].ancestors[0];
            proof {
                assert(self@[x] == self.nodes@[x]@);
                assert(a[x].ancestors[0] == p as int);
                assert(a[x].ancestors[0] < x);
            }
            let live = self.nodes[p].live_kids;
            self.nodes[p].live_kids = live - 1;
            proof {
                assert(self@ =~= collect_one(a, x));
            }
            let ghost mid = self@;
            self.settle(p);
            proof {
                assert forall|j: int| 0 <= j < a.len() && #[trigger] self@[j].collected != a[j].collected
                    implies in_subtree(a, x, j) by {
                    if j != x {
                        assert(mid[j].collected == a[j].collected);
                        assert(in_subtree(mid, p as int, j));
                        assert(in_subtree(a, x, p as int)) by {
                            assert(a[x].ancestors[0] == p as int);
                        }
                        if p as int != j {
                            crate::model::lemma_subtree_transitive(a, x, p as int, j);
                        }
                    }
                }
            }
        } else {
            proof {
                assert(self@ =~= collect_one(a, x));
            }
        }
    }

    /// Release one guard whose home is `node` (what dropping a guard does):
    /// the guard accounting falls as [`Self::decrement_guard`] describes, the
    /// completion wake-ups it owes are queued, and `node` and then its
    /// ancestors are collected as far as nothing holds them any more.
    pub fn drop_guard(&mut self, node: usize)
        requires
            old(self).wf(),
            old(self).valid(node as int),
            old(self)@[node as int].local_guards >= 1,
        ensures
            final(self).wf(),
            final(self)@.len() == old(self)@.len(),
            forall|j: int| 0 <= j < old(self)@.len() ==> #[trigger] final(self)@[j] == (NodeView {
                nonempty_kids: final(self)@[j].nonempty_kids,
                collected: final(self)@[j].collected,
                live_kids: final(self)@[j].live_kids,
                local_guards: (old(self)@[j].local_guards - (if j == node { 1int } else { 0int })) as nat,
                ..old(self)@[j]
            }),
            forall|j: int| 0 <= j < old(self)@.len() && old(self)@[j].collected ==> #[trigger] final(self)@[j].collected,
            forall|j: int| 0 <= j < old(self)@.len() && #[trigger] final(self)@[j].collected != old(self)@[j].collected
                ==> in_subtree(old(self)@, node as int, j),
            forall|i: int| #[trigger] subtree_guards(final(self)@, i) == subtree_guards(old(self)@, i)
                - indicator(in_subtree(old(self)@, node as int, i)),
            final(self).notices() == old(self).notices() + release_notices(old(self)@, node as int),
            stops_latched(old(self)@, final(self)@),
            wakeups_owed(old(self)@, final(self)@, final(self).notices().skip(old(self).notices().len() as int)),
    {
        let ghost a = self@;
        self.decrement_guard(node);
        let ghost mid = self@;
        proof {
            assert(locals_moved(a, mid, node as int, -1));
            lemma_locals_moved(a, mid, node as int, -1);
        }
        self.settle(node);
        proof {
            assert forall|j: int| 0 <= j < a.len() implies (#[trigger] self@[j]).ancestors == mid[j].ancestors
                && self@[j].local_guards == mid[j].local_guards by {}
            crate::model::lemma_guard_frame(mid, self@);
        }
        proof {
            self.lemma_view();
            old(self).lemma_view();
            assert(old(self).nodes@.len() == old(self).nodes.len());
            lemma_release_wakeups(old(self)@, self@, node as int);
            assert(self.notices().skip(old(self).notices().len() as int) =~= release_notices(old(self)@, node as int));
        }
    }


    /// Stop `node` and, through the child lists, every live scope of its
    /// subtree that is not stopped yet; a scope that is stopped already is a
    /// boundary, below which everything live is stopped too.
    fn stop_rec(&mut self, node: usize)
        requires
            shape_wf(old(self)@),
            old(self).valid(node as int),
            !old(self)@[node as int].collected,
            closed_below(old(self)@, node as int),
        ensures
            latches_only(old(self)@, final(self)@),
            forall|j: int| 0 <= j < old(self)@.len() ==> #[trigger] final(self)@[j].stopped
                == (old(self)@[j].stopped || newly_stopped(old(self)@, node as int, j)),
            final(self).notices().len() >= old(self).notices().len(),
            final(self).notices().take(old(self).notices().len() as int) == old(self).notices(),
            stop_owed_exactly(final(self).notices().skip(old(self).notices().len() as int), old(self)@, node as int),
        decreases usize::MAX - node,
    {
        proof {
            self.lemma_view();
        }
        let ghost a = self@;
        let ghost x = node as int;
        let ghost base = self.notices@;
        if self.nodes[node].stopped {
            proof {
                assert forall|j: int| 0 <= j < a.len() implies !#[trigger] newly_stopped(a, x, j) by {
                    if in_subtree(a, j, x) && !a[j].collected {
                        assert(in_subtree(a, x, x));
                    }
                }
                assert(self.notices@.take(base.len() as int) =~= base);
                let added = self.notices@.skip(base.len() as int);
                assert(added =~= Seq::<Notice>::empty());
                assert forall|z: Notice| added.contains(z) <==> owed_on_stop(a, x, z) by {
                    if owed_on_stop(a, x, z) {
                        assert(newly_stopped(a, x, subject(z)));
                    }
                }
                assert(latches_only(a, self@)) by {
                    assert forall|j: int| 0 <= j < a.len() implies #[trigger] self@[j] == (NodeView { stopped: self@[j].stopped, ..a[j] }) by {}
                }
            }
            return;
        }
        self.nodes[node].stopped = true;
        self.notices.push(Notice::Stop(node));
        let ghost list = a[x].children;
        let n = self.nodes[node].children.len();
        proof {
            assert(self@ =~= a.update(x, NodeView { stopped: true, ..a[x] }));
            assert(latches_only(a, self@)) by {
                assert forall|j: int| 0 <= j < a.len() implies #[trigger] self@[j] == (NodeView { stopped: self@[j].stopped, ..a[j] }) by {}
            }
            assert(self.notices@.skip(base.len() as int + 1) =~= Seq::<Notice>::empty());
            assert(self.notices@.take(base.len() as int) =~= base);
            assert(self@[x] == self.nodes@[x]@);
        }
        let mut t: usize = 0;
        while t < n
            invariant
                shape_wf(a),
                closed_below(a, x),
                x == node as int,
                0 <= x < a.len(),
                !a[x].collected,
                !a[x].stopped,
                list == a[x].children,
                n == list.len(),
                t <= n,
                self.nodes@.len() == a.len(),
                forall|i: int| 0 <= i < self.nodes@.len() ==> #[trigger] self@[i] == self.nodes@[i]@,
                latches_only(a, self@),
                forall|j: int| 0 <= j < a.len() ==> #[trigger] self@[j].stopped
                    == (a[j].stopped || j == x || covered(a, list, t as int, j)),
                self.notices@.len() >= base.len() + 1,
                self.notices@.take(base.len() as int) == base,
                self.notices@[base.len() as int] == Notice::Stop(node),
                self.notices@.skip(base.len() as int + 1).no_duplicates(),
                forall|z: Notice| #[trigger] self.notices@.skip(base.len() as int + 1).contains(z) <==>
                    (owed_on_stop(a, x, z) && covered(a, list, t as int, subject(z))),
            decreases n - t,
        {
            proof {
                assert(self@[x].children == list);
                assert(self.nodes@[x]@ == self@[x]);
            }
            let c = self.nodes[node].children[t];
            let ghost ci = c as int;
            proof {
                assert(list[t as int] == ci);
                assert(x < ci < a.len());
                assert(parent_is(a, ci, x));
                assert(self.nodes@[ci]@ == self@[ci]);
                assert(self@[ci].collected == a[ci].collected);
            }
            let ghost s = self@;
            let ghost before = self.notices@;
            if !self.nodes[c].collected {
                proof {
                    lemma_latches_frame(a, s);
                    assert(in_subtree(a, ci, x)) by {
                        assert(a[ci].ancestors[0] == x);
                    }
                    assert forall|k: int, j: int|
                        0 <= k < s.len() && 0 <= j < s.len() && in_subtree(s, k, ci) && s[k].stopped
                            && #[trigger] in_subtree(s, j, k) && !s[j].collected implies s[j].stopped by {
                        assert(in_subtree(a, k, ci));
                        assert(in_subtree(a, j, k));
                        lemma_subtree_order(a, k, ci);
                        lemma_subtree_transitive(a, k, ci, x);
                        lemma_subtree_transitive(a, j, k, ci);
                        if a[k].stopped {
                        } else if covered(a, list, t as int, k) {
                            let u = choose|u: int| 0 <= u < t && !a[list[u]].collected && #[trigger] in_subtree(a, k, list[u]) && !a[k].collected;
                            lemma_subtree_transitive(a, j, k, list[u]);
                            assert(covered(a, list, t as int, j));
                        }
                    }
                }
                self.stop_rec(c);
                proof {
                    let s2 = self@;
                    let acc0 = before.skip(base.len() as int + 1);
                    let nc = self.notices@.skip(before.len() as int);
                    assert(self.notices@ =~= before + nc) by {
                        assert(self.notices@.take(before.len() as int) == before);
                    }
                    assert(self.notices@.skip(base.len() as int + 1) =~= acc0 + nc);
                    // which scopes the call covered
                    assert forall|j: int| 0 <= j < a.len() implies
                        (#[trigger] covered(a, list, t as int + 1, j) <==> (covered(a, list, t as int, j)
                            || (in_subtree(a, j, ci) && !a[j].collected))) by {
                        if covered(a, list, t as int + 1, j) && !covered(a, list, t as int, j) {
                            let u = choose|u: int| 0 <= u < t + 1 && !a[list[u]].collected && #[trigger] in_subtree(a, j, list[u]) && !a[j].collected;
                            assert(u == t);
                        }
                        if in_subtree(a, j, ci) && !a[j].collected {
                            assert(in_subtree(a, j, list[t as int]));
                        }
                        if covered(a, list, t as int, j) {
                            let u = choose|u: int| 0 <= u < t && !a[list[u]].collected && #[trigger] in_subtree(a, j, list[u]) && !a[j].collected;
                            assert(in_subtree(a, j, list[u]));
                        }
                    }
                    assert forall|j: int| 0 <= j < a.len() implies #[trigger] s[j].stopped == (a[j].stopped || j == x || covered(a, list, t as int, j)) by {}
                    assert forall|j: int| 0 <= j < a.len() && in_subtree(a, j, ci) implies j != x by {
                        lemma_subtree_order(a, j, ci);
                    }
                    assert(latches_only(a, s2)) by {
                        assert forall|j: int| 0 <= j < a.len() implies #[trigger] s2[j] == (NodeView { stopped: s2[j].stopped, ..a[j] }) by {
                            assert(s2[j] == (NodeView { stopped: s2[j].stopped, ..s[j] }));
                            assert(s[j] == (NodeView { stopped: s[j].stopped, ..a[j] }));
                        }
                    }
                    assert forall|j: int| 0 <= j < a.len() implies #[trigger] s2[j].stopped
                        == (a[j].stopped || j == x || covered(a, list, t as int + 1, j)) by {
                        assert(s2[j].stopped == (s[j].stopped || newly_stopped(s, ci, j)));
                        assert(in_subtree(s, j, ci) == in_subtree(a, j, ci));
                    }
                    // the wake-ups the call owed are those of the newly covered scopes
                    assert forall|z: Notice| #[trigger] nc.contains(z) <==>
                        (owed_on_stop(a, x, z) && covered(a, list, t as int + 1, subject(z)) && !covered(a, list, t as int, subject(z))) by {
                        let j = subject(z);
                        if 0 <= j < a.len() {
                            assert(in_subtree(s, j, ci) == in_subtree(a, j, ci));
                            assert(subtree_guards(s, j) == subtree_guards(a, j));
                            if in_subtree(a, j, ci) {
                                lemma_subtree_transitive(a, j, ci, x);
                            }
                        }
                    }
                    assert((acc0 + nc).no_duplicates()) by {
                        assert forall|p: int, q: int| 0 <= p < (acc0 + nc).len() && 0 <= q < (acc0 + nc).len() && p != q
                            implies (acc0 + nc)[p] != (acc0 + nc)[q] by {
                            if p < acc0.len() && q >= acc0.len() {
                                assert(acc0.contains(acc0[p]));
                                assert(nc.contains(nc[q - acc0.len()]));
                            } else if q < acc0.len() && p >= acc0.len() {
                                assert(acc0.contains(acc0[q]));
                                assert(nc.contains(nc[p - acc0.len()]));
                            }
                        }
                    }
                    assert forall|z: Notice| #[trigger] (acc0 + nc).contains(z) <==>
                        (owed_on_stop(a, x, z) && covered(a, list, t as int + 1, subject(z))) by {
                        if (acc0 + nc).contains(z) {
                            let w = choose|w: int| 0 <= w < (acc0 + nc).len() && (acc0 + nc)[w] == z;
                            if w < acc0.len() {
                                assert(acc0.contains(z));
                            } else {
                                assert(nc.contains(z));
                            }
                        }
                        if owed_on_stop(a, x, z) && covered(a, list, t as int + 1, subject(z)) {
                            if covered(a, list, t as int, subject(z)) {
                                assert(acc0.contains(z));
                                let w = choose|w: int| 0 <= w < acc0.len() && acc0[w] == z;
                                assert((acc0 + nc)[w] == z);
                            } else {
                                assert(nc.contains(z));
                                let w = choose|w: int| 0 <= w < nc.len() && nc[w] == z;
                                assert((acc0 + nc)[acc0.len() + w] == z);
                            }
                        }
                    }
                    assert(self.notices@.take(base.len() as int) =~= base) by {
                        assert(self.notices@.take(before.len() as int) == before);
                        assert(before.take(base.len() as int) == base);
                    }
                    assert(self.notices@[base.len() as int] == before[base.len() as int]) by {
                        assert(self.notices@.take(before.len() as int) == before);
                        assert(self.notices@.take(before.len() as int)[base.len() as int] == self.notices@[base.len() as int]);
                    }
                }
            } else {
                proof {
                    assert forall|j: int| 0 <= j < a.len() implies
                        (#[trigger] covered(a, list, t as int + 1, j) <==> covered(a, list, t as int, j)) by {
                        if covered(a, list, t as int + 1, j) {
                            let u = choose|u: int| 0 <= u < t + 1 && !a[list[u]].collected && #[trigger] in_subtree(a, j, list[u]) && !a[j].collected;
                            assert(u != t);
                            assert(covered(a, list, t as int, j));
                        }
                        if covered(a, list, t as int, j) {
                            let u = choose|u: int| 0 <= u < t && !a[list[u]].collected && #[trigger] in_subtree(a, j, list[u]) && !a[j].collected;
                            assert(covered(a, list, t as int + 1, j));
                        }
                    }
                    assert forall|z: Notice| #[trigger] self.notices@.skip(base.len() as int + 1).contains(z) <==>
                        (owed_on_stop(a, x, z) && covered(a, list, t as int + 1, subject(z))) by {
                        if 0 <= subject(z) < a.len() {
                            assert(covered(a, list, t as int + 1, subject(z)) == covered(a, list, t as int, subject(z)));
                        }
                    }
                    assert forall|j: int| 0 <= j < a.len() implies #[trigger] self@[j].stopped
                        == (a[j].stopped || j == x || covered(a, list, t as int + 1, j)) by {
                        assert(covered(a, list, t as int + 1, j) == covered(a, list, t as int, j));
                    }
                }
            }
            t = t + 1;
        }
        proof {
            assert(self.nodes@[x]@ == self@[x]);
            lemma_latches_frame(a, self@);
            crate::model::lemma_zero_iff(a, x);
            assert(a[x].nonempty_kids == nonempty_children(a, x));
        }
        let zero = self.nodes[node].local_guards == 0 && self.nodes[node].nonempty_kids == 0;
        let ghost before_zero = self.notices@;
        if zero {
            self.notices.push(Notice::Zero(node));
        }
        proof {
            let acc = before_zero.skip(base.len() as int + 1);
            // every live scope of the subtree is covered now
            assert forall|j: int| 0 <= j < a.len() implies #[trigger] newly_stopped(a, x, j)
                == (!a[j].stopped && (j == x || covered(a, list, n as int, j))) by {
                if newly_stopped(a, x, j) && j != x {
                    let c = lemma_path_child(a, j, x);
                    assert(!a[c].collected) by {
                        if a[c].collected {
                            assert(in_subtree(a, j, c));
                        }
                    }
                    assert(!a[c].stopped) by {
                        if a[c].stopped {
                            assert(in_subtree(a, c, x)) by {
                                assert(a[c].ancestors[0] == x);
                            }
                        }
                    }
                    assert(a[x].children.contains(c));
                    let u = choose|u: int| 0 <= u < list.len() && list[u] == c;
                    assert(in_subtree(a, j, list[u]));
                    assert(covered(a, list, n as int, j));
                }
                if covered(a, list, n as int, j) {
                    let u = choose|u: int| 0 <= u < n && !a[list[u]].collected && #[trigger] in_subtree(a, j, list[u]) && !a[j].collected;
                    assert(parent_is(a, list[u], x));
                    assert(in_subtree(a, list[u], x)) by {
                        assert(a[list[u]].ancestors[0] == x);
                    }
                    lemma_subtree_transitive(a, j, list[u], x);
                }
            }
            assert forall|j: int| 0 <= j < a.len() implies #[trigger] self@[j].stopped
                == (a[j].stopped || newly_stopped(a, x, j)) by {
            }
            let added = self.notices@.skip(base.len() as int);
            assert(self.notices@.take(base.len() as int) =~= base);
            let tail: Seq<Notice> = if zero { seq![Notice::Zero(node)] } else { Seq::empty() };
            assert(self.notices@ =~= before_zero + tail);
            assert(added =~= seq![Notice::Stop(node)] + acc + tail);
            assert forall|z: Notice| acc.contains(z) implies subject(z) != x by {
                if subject(z) == x {
                    let u = choose|u: int| 0 <= u < n && !a[list[u]].collected && #[trigger] in_subtree(a, x, list[u]) && !a[x].collected;
                    lemma_subtree_order(a, x, list[u]);
                    assert(list[u] > x);
                }
            }
            assert forall|z: Notice| added.contains(z) <==> owed_on_stop(a, x, z) by {
                if added.contains(z) {
                    let w = choose|w: int| 0 <= w < added.len() && added[w] == z;
                    if w == 0 {
                        assert(newly_stopped(a, x, x));
                    } else if w < 1 + acc.len() {
                        assert(acc[w - 1] == z);
                        assert(acc.contains(z));
                    } else {
                        assert(newly_stopped(a, x, x));
                    }
                }
                if owed_on_stop(a, x, z) {
                    let j = subject(z);
                    if j == x {
                        if z is Stop {
                            assert(added[0] == z);
                        } else {
                            assert(zero);
                            assert(added[1 + acc.len() as int] == z);
                        }
                    } else {
                        assert(covered(a, list, n as int, j));
                        assert(acc.contains(z));
                        let w = choose|w: int| 0 <= w < acc.len() && acc[w] == z;
                        assert(added[1 + w] == z);
                    }
                }
            }
            assert(added.no_duplicates()) by {
                assert forall|p: int, q: int| 0 <= p < added.len() && 0 <= q < added.len() && p != q
                    implies added[p] != added[q] by {
                    let in_acc = |w: int| 1 <= w < 1 + acc.len();
                    if in_acc(p) && in_acc(q) {
                        assert(acc[p - 1] != acc[q - 1]);
                    } else if in_acc(p) {
                        assert(acc.contains(acc[p - 1]));
                    } else if in_acc(q) {
                        assert(acc.contains(acc[q - 1]));
                    }
                }
            }
        }
    }


    /// Signal shutdown to the live scope `node`: it and every live scope of its
    /// subtree are stopped (a stop never travels up, and never reaches a
    /// sibling), and the stop and completion wake-ups that owes are queued,
    /// each once.
    pub fn stop(&mut self, node: usize)
        requires
            old(self).wf(),
            old(self).valid(node as int),
            !old(self)@[node as int].collected,
        ensures
            final(self).wf(),
            latches_only(old(self)@, final(self)@),
            forall|j: int| 0 <= j < old(self)@.len() ==> #[trigger] final(self)@[j].stopped
                == (old(self)@[j].stopped || newly_stopped(old(self)@, node as int, j)),
            final(self).notices().len() >= old(self).notices().len(),
            final(self).notices().take(old(self).notices().len() as int) == old(self).notices(),
            stop_owed_exactly(final(self).notices().skip(old(self).notices().len() as int), old(self)@, node as int),
            stops_latched(old(self)@, final(self)@),
            wakeups_owed(old(self)@, final(self)@, final(self).notices().skip(old(self).notices().len() as int)),
    {
        let ghost a = self@;
        proof {
            lemma_wf_split(a);
            assert forall|k: int, j: int|
                0 <= k < a.len() && 0 <= j < a.len() && in_subtree(a, k, node as int) && a[k].stopped
                    && #[trigger] in_subtree(a, j, k) && !a[j].collected implies a[j].stopped by {}
        }
        self.stop_rec(node);
        proof {
            let b = self@;
            lemma_latches_frame(a, b);
            assert(stop_closed(b)) by {
                assert forall|i: int, j: int|
                    0 <= i < b.len() && 0 <= j < b.len() && b[i].stopped && #[trigger] in_subtree(b, j, i)
                        && !b[j].collected implies b[j].stopped by {
                    assert(in_subtree(a, j, i));
                    assert(b[j].collected == a[j].collected);
                    if !a[i].stopped {
                        assert(newly_stopped(a, node as int, i));
                        lemma_subtree_transitive(a, j, i, node as int);
                        assert(b[j].stopped == (a[j].stopped || newly_stopped(a, node as int, j)));
                    }
                }
            }
            lemma_wf_split(b);
        }
        proof {
            self.lemma_view();
            old(self).lemma_view();
            lemma_latches_frame(old(self)@, self@);
            assert(old(self).nodes@.len() == old(self).nodes.len());
            lemma_stop_wakeups(old(self)@, self@, node as int, true, self.notices().skip(old(self).notices().len() as int));
        }
    }

    /// Count one more handle naming `node`, which some handle names already.
    pub fn swansong_clone(&mut self, node: usize)
        requires
            old(self).wf(),
            old(self).valid(node as int),
            old(self)@[node as int].handles >= 1,
            old(self)@[node as int].handles < usize::MAX,
        ensures
            final(self).wf(),
            final(self)@ == old(self)@.update(node as int, NodeView { handles: old(self)@[node as int].handles + 1, ..old(self)@[node as int] }),
            final(self).notices() == old(self).notices(),
            stops_latched(old(self)@, final(self)@),
            wakeups_owed(old(self)@, final(self)@, final(self).notices().skip(old(self).notices().len() as int)),
    {
        proof {
            self.lemma_view();
        }
        let ghost a = self@;
        let count = self.nodes[node].swansong_count;
        self.nodes[node].swansong_count = count + 1;
        proof {
            let b = self@;
            assert(b =~= a.update(node as int, NodeView { handles: a[node as int].handles + 1, ..a[node as int] }));
            assert(holds_only(a, b, node as int));
            lemma_holds_frame(a, b, node as int);
        }
        proof {
            self.lemma_view();
            crate::model::lemma_guard_frame(old(self)@, self@);
            lemma_quiet_change(old(self)@, self@, self.notices().skip(old(self).notices().len() as int));
        }
    }


    /// Drop one handle naming `node`. Dropping the last handle of a root
    /// signals shutdown to it first, as [`Self::stop`] does; dropping the last
    /// handle of a child does not. Then `node` and its ancestors are collected
    /// as far as nothing holds them any more.
    pub fn drop_handle(&mut self, node: usize)
        requires
            old(self).wf(),
            old(self).valid(node as int),
            old(self)@[node as int].handles >= 1,
        ensures
            final(self).wf(),
            final(self)@.len() == old(self)@.len(),
            forall|j: int| 0 <= j < old(self)@.len() ==> #[trigger] final(self)@[j] == (NodeView {
                stopped: final(self)@[j].stopped,
                collected: final(self)@[j].collected,
                live_kids: final(self)@[j].live_kids,
                handles: (old(self)@[j].handles - (if j == node { 1int } else { 0int })) as nat,
                ..old(self)@[j]
            }),
            forall|j: int| 0 <= j < old(self)@.len() ==> #[trigger] final(self)@[j].stopped
                == (old(self)@[j].stopped || (implicit_stop(old(self)@, node as int) && newly_stopped(old(self)@, node as int, j))),
            forall|j: int| 0 <= j < old(self)@.len() && old(self)@[j].collected ==> #[trigger] final(self)@[j].collected,
            forall|j: int| 0 <= j < old(self)@.len() && #[trigger] final(self)@[j].collected != old(self)@[j].collected
                ==> in_subtree(old(self)@, node as int, j),
            final(self).notices().len() >= old(self).notices().len(),
            final(self).notices().take(old(self).notices().len() as int) == old(self).notices(),
            implicit_stop(old(self)@, node as int) ==> stop_owed_exactly(
                final(self).notices().skip(old(self).notices().len() as int), old(self)@, node as int),
            !implicit_stop(old(self)@, node as int) ==> final(self).notices() == old(self).notices(),
            stops_latched(old(self)@, final(self)@),
            wakeups_owed(old(self)@, final(self)@, final(self).notices().skip(old(self).notices().len() as int)),
    {
        proof {
            self.lemma_view();
        }
        let ghost a = self@;
        let ghost x = node as int;
        let last = self.nodes[node].swansong_count == 1;
        let root = self.nodes[node].ancestors.len() == 0;
        proof {
            assert(a[x] == self.nodes@[x]@);
            assert(!a[x].collected);
        }
        if last && root {
            self.stop(node);
        }
        let ghost s = self@;
        proof {
            self.lemma_view();
            assert(s[x] == self.nodes@[x]@);
            if !(last && root) {
                assert(self.notices@ == old(self).notices@);
                assert(self.notices@.take(old(self).notices@.len() as int) =~= old(self).notices@);
            }
        }
        let count = self.nodes[node].swansong_count;
        self.nodes[node].swansong_count = count - 1;
        proof {
            let b = self@;
            assert(holds_only(s, b, x)) by {
                assert(b =~= s.update(x, NodeView { handles: (s[x].handles - 1) as nat, ..s[x] }));
            }
            lemma_holds_frame(s, b, x);
        }
        let ghost m = self@;
        self.settle(node);
        proof {
            assert forall|j: int| 0 <= j < a.len() implies #[trigger] self@[j] == (NodeView {
                stopped: self@[j].stopped,
                collected: self@[j].collected,
                live_kids: self@[j].live_kids,
                handles: (a[j].handles - (if j == x { 1int } else { 0int })) as nat,
                ..a[j]
            }) by {
                assert(self@[j] == (NodeView { collected: self@[j].collected, live_kids: self@[j].live_kids, ..m[j] }));
                if last && root {
                    assert(s[j] == (NodeView { stopped: s[j].stopped, ..a[j] }));
                }
            }
            assert forall|j: int| 0 <= j < a.len() && #[trigger] self@[j].collected != a[j].collected
                implies in_subtree(a, x, j) by {
                assert(m[j].collected == a[j].collected);
                assert(m[j].ancestors == a[j].ancestors);
                if last && root {
                    lemma_latches_frame(a, s);
                }
                assert(in_subtree(m, x, j) == in_subtree(a, x, j)) by {
                    assert(m[x].ancestors == a[x].ancestors);
                }
            }
        }
        proof {
            self.lemma_view();
            old(self).lemma_view();
            assert forall|j: int| 0 <= j < old(self)@.len() implies (#[trigger] old(self)@[j]).ancestors == self@[j].ancestors
                && old(self)@[j].local_guards == self@[j].local_guards by {
                assert(self@[j] == (NodeView { stopped: self@[j].stopped, collected: self@[j].collected,
                    live_kids: self@[j].live_kids, handles: self@[j].handles, ..old(self)@[j] }));
            }
            crate::model::lemma_guard_frame(old(self)@, self@);
            if !implicit_stop(old(self)@, node as int) {
                assert(self.notices().skip(old(self).notices().len() as int) =~= Seq::<Notice>::empty());
            }
            assert(old(self).nodes@.len() == old(self).nodes.len());
            lemma_stop_wakeups(old(self)@, self@, node as int, implicit_stop(old(self)@, node as int), self.notices().skip(old(self).notices().len() as int));
        }
    }

    /// Count one more waiter keeping the live scope `node` alive.
    pub fn pin(&mut self, node: usize)
        requires
            old(self).wf(),
            old(self).valid(node as int),
            !old(self)@[node as int].collected,
            old(self)@[node as int].pins < usize::MAX,
        ensures
            final(self).wf(),
            final(self)@ == old(self)@.update(node as int, NodeView { pins: old(self)@[node as int].pins + 1, ..old(self)@[node as int] }),
            final(self).notices() == old(self).notices(),
            stops_latched(old(self)@, final(self)@),
            wakeups_owed(old(self)@, final(self)@, final(self).notices().skip(old(self).notices().len() as int)),
    {
        proof {
            self.lemma_view();
        }
        let ghost a = self@;
        let count = self.nodes[node].pins;
        self.nodes[node].pins = count + 1;
        proof {
            let b = self@;
            assert(b =~= a.update(node as int, NodeView { pins: a[node as int].pins + 1, ..a[node as int] }));
            assert(holds_only(a, b, node as int));
            lemma_holds_frame(a, b, node as int);
        }
        proof {
            self.lemma_view();
            crate::model::lemma_guard_frame(old(self)@, self@);
            lemma_quiet_change(old(self)@, self@, self.notices().skip(old(self).notices().len() as int));
        }
    }

    /// Count one waiter less keeping `node` alive; then `node` and its
    /// ancestors are collected as far as nothing holds them any more.
    pub fn unpin(&mut self, node: usize)
        requires
            old(self).wf(),
            old(self).valid(node as int),
            old(self)@[node as int].pins >= 1,
        ensures
            final(self).wf(),
            final(self)@.len() == old(self)@.len(),
            forall|j: int| 0 <= j < old(self)@.len() ==> #[trigger] final(self)@[j] == (NodeView {
                collected: final(self)@[j].collected,
                live_kids: final(self)@[j].live_kids,
                pins: (old(self)@[j].pins - (if j == node { 1int } else { 0int })) as nat,
                ..old(self)@[j]
            }),
            forall|j: int| 0 <= j < old(self)@.len() && old(self)@[j].collected ==> #[trigger] final(self)@[j].collected,
            forall|j: int| 0 <= j < old(self)@.len() && #[trigger] final(self)@[j].collected != old(self)@[j].collected
                ==> in_subtree(old(self)@, node as int, j),
            final(self).notices() == old(self).notices(),
            stops_latched(old(self)@, final(self)@),
            wakeups_owed(old(self)@, final(self)@, final(self).notices().skip(old(self).notices().len() as int)),
    {
        proof {
            self.lemma_view();
        }
        let ghost a = self@;
        let ghost x = node as int;
        proof {
            assert(a[x] == self.nodes@[x]@);
        }
        let count = self.nodes[node].pins;
        self.nodes[node].pins = count - 1;
        proof {
            let b = self@;
            assert(b =~= a.update(x, NodeView { pins: (a[x].pins - 1) as nat, ..a[x] }));
            assert(holds_only(a, b, x));
            lemma_holds_frame(a, b, x);
        }
        let ghost m = self@;
        self.settle(node);
        proof {
            assert forall|j: int| 0 <= j < a.len() implies #[trigger] self@[j] == (NodeView {
                collected: self@[j].collected,
                live_kids: self@[j].live_kids,
                pins: (a[j].pins - (if j == x { 1int } else { 0int })) as nat,
                ..a[j]
            }) by {
                assert(self@[j] == (NodeView { collected: self@[j].collected, live_kids: self@[j].live_kids, ..m[j] }));
            }
        }
        proof {
            self.lemma_view();
            assert forall|j: int| 0 <= j < old(self)@.len() implies (#[trigger] old(self)@[j]).ancestors == self@[j].ancestors
                && old(self)@[j].local_guards == self@[j].local_guards by {
                assert(self@[j] == (NodeView { collected: self@[j].collected, live_kids: self@[j].live_kids,
                    pins: self@[j].pins, ..old(self)@[j] }));
            }
            crate::model::lemma_guard_frame(old(self)@, self@);
            lemma_quiet_change(old(self)@, self@, self.notices().skip(old(self).notices().len() as int));
        }
    }

    /// Hand over the owed wake-ups, leaving none.
    pub fn take_notices(&mut self) -> (taken: Vec<Notice>)
        ensures
            taken@ == old(self).notices(),
            final(self).notices().len() == 0,
            final(self)@ == old(self)@,
    {
        let mut taken = Vec::new();
        std::mem::swap(&mut taken, &mut self.notices);
        taken
    }
}

} // verus!
